use butido::journal::Artifact;
use butido::journal::Endpoint;
use butido::journal::EnvVar;
use butido::journal::Image;
use butido::journal::Job;
use butido::journal::Package;
use butido::journal::Release;
use butido::journal::ReleaseEntry;
use butido::journal::ReleaseStore;
use butido::journal::Submit;
use butido::journal::artifact_table;
use butido::journal::envvar_table;
use butido::journal::image_table;
use butido::journal::job_details;
use butido::journal::job_table;
use butido::journal::release_table;
use butido::journal::submit_table;
use butido::journal::submit_table_with_and_for;
use butido::journal::success_label;

fn job(id: u64, uuid: &str, log: &[u8]) -> Job {
    Job {
        id,
        uuid: uuid.to_string(),
        submit_id: 1,
        endpoint_id: 1,
        package_id: 1,
        image_id: 1,
        container_hash: "cafebabe".to_string(),
        script_text: "#!/bin/sh\ntrue".to_string(),
        log_text: log.to_vec(),
    }
}

#[test]
fn artifact_rows_show_release_date_or_no() {
    let rows = vec![
        (
            Artifact { id: 3, path: "uuid-1/out.tar".to_string(), job_id: 9 },
            job(9, "aaaaaaaa-0000-0000-0000-000000000001", b""),
            Some(Release {
                id: 1,
                artifact_id: 3,
                release_store_id: 1,
                release_date: "2021-01-01 00:00:00".to_string(),
            }),
        ),
        (
            Artifact { id: 4, path: "uuid-1/dbg.tar".to_string(), job_id: 9 },
            job(9, "aaaaaaaa-0000-0000-0000-000000000001", b""),
            None,
        ),
    ];
    let table = artifact_table(&rows);
    assert_eq!(
        table,
        vec![
            vec![
                "3".to_string(),
                "uuid-1/out.tar".to_string(),
                "2021-01-01 00:00:00".to_string(),
                "aaaaaaaa-0000-0000-0000-000000000001".to_string(),
            ],
            vec![
                "4".to_string(),
                "uuid-1/dbg.tar".to_string(),
                "no".to_string(),
                "aaaaaaaa-0000-0000-0000-000000000001".to_string(),
            ],
        ]
    );
}

#[test]
fn envvar_rows_hold_id_name_value() {
    let table = envvar_table(&vec![EnvVar {
        id: 12,
        name: "CFLAGS".to_string(),
        value: "-O2".to_string(),
    }]);
    assert_eq!(
        table,
        vec![vec!["12".to_string(), "CFLAGS".to_string(), "-O2".to_string()]]
    );
}

#[test]
fn image_rows_hold_id_and_name() {
    let table = image_table(&vec![Image { id: 2, name: "img-x".to_string() }]);
    assert_eq!(table, vec![vec!["2".to_string(), "img-x".to_string()]]);
}

#[test]
fn submit_rows_hold_id_time_uuid() {
    let table = submit_table(&vec![Submit {
        id: 7,
        uuid: "00000000-0000-0000-0000-000000000007".to_string(),
        submit_time: "2021-02-03 04:05:06".to_string(),
    }]);
    assert_eq!(
        table,
        vec![vec![
            "7".to_string(),
            "2021-02-03 04:05:06".to_string(),
            "00000000-0000-0000-0000-000000000007".to_string(),
        ]]
    );
}

#[test]
fn submits_with_a_package_come_before_those_for_it() {
    let with_pkg = vec![Submit {
        id: 1,
        uuid: "u1".to_string(),
        submit_time: "t1".to_string(),
    }];
    let for_pkg = vec![Submit {
        id: 2,
        uuid: "u2".to_string(),
        submit_time: "t2".to_string(),
    }];
    let table = submit_table_with_and_for(&with_pkg, &for_pkg);
    assert_eq!(
        table,
        vec![
            vec!["1".to_string(), "t1".to_string(), "u1".to_string()],
            vec!["2".to_string(), "t2".to_string(), "u2".to_string()],
        ]
    );
}

#[test]
fn success_labels_follow_the_log() {
    assert_eq!(success_label(b"#BUTIDO:STATE:OK"), "yes");
    assert_eq!(success_label(b"#BUTIDO:STATE:ERR:disk full"), "no");
    assert_eq!(success_label(b"plain output"), "unknown");
}

#[test]
fn job_rows_read_the_outcome_from_the_log() {
    let rows = vec![(
        job(5, "job-uuid", b"#BUTIDO:PHASE:build\n#BUTIDO:STATE:OK"),
        Submit {
            id: 1,
            uuid: "submit-uuid".to_string(),
            submit_time: "2021-05-06 07:08:09".to_string(),
        },
        Endpoint { id: 1, name: "worker-1".to_string() },
        Package { id: 1, name: "p".to_string(), version: "1.0".to_string() },
    )];
    let table = job_table(&rows);
    assert_eq!(
        table,
        vec![vec![
            "5".to_string(),
            "submit-uuid".to_string(),
            "job-uuid".to_string(),
            "2021-05-06 07:08:09".to_string(),
            "worker-1".to_string(),
            "yes".to_string(),
            "p".to_string(),
            "1.0".to_string(),
        ]]
    );
}

#[test]
fn job_detail_row_holds_the_summary() {
    let j = job(5, "job-uuid", b"#BUTIDO:STATE:ERR:boom");
    let row = job_details(
        &j,
        &Endpoint { id: 1, name: "worker-1".to_string() },
        &Package { id: 1, name: "p".to_string(), version: "1.0".to_string() },
        &Image { id: 1, name: "img-x".to_string() },
    );
    assert_eq!(
        row,
        vec![
            "job-uuid".to_string(),
            "no".to_string(),
            "p".to_string(),
            "1.0".to_string(),
            "worker-1".to_string(),
            "img-x".to_string(),
            "cafebabe".to_string(),
        ]
    );
}

fn release_entry(name: &str, version: &str, path: &str, present: bool) -> ReleaseEntry {
    ReleaseEntry {
        artifact: Artifact { id: 1, path: path.to_string(), job_id: 1 },
        package: Package { id: 1, name: name.to_string(), version: version.to_string() },
        release: Release {
            id: 1,
            artifact_id: 1,
            release_store_id: 1,
            release_date: "2021-01-01 00:00:00".to_string(),
        },
        store: ReleaseStore { id: 1, store_name: "stable".to_string() },
        present,
    }
}

#[test]
fn present_releases_are_listed_with_their_path() {
    let entries = vec![release_entry("p", "1.0", "out.tar", true)];
    let (kept, missing) = release_table(&"/releases".to_string(), &entries);
    assert_eq!(
        kept,
        vec![vec![
            "p".to_string(),
            "1.0".to_string(),
            "2021-01-01 00:00:00".to_string(),
            "/releases/stable/out.tar".to_string(),
        ]]
    );
    assert!(missing.is_empty());
}

#[test]
fn absent_releases_are_reported_never_listed() {
    let entries = vec![
        release_entry("p", "1.0", "out.tar", true),
        release_entry("q", "2.0", "gone.tar", false),
    ];
    let (kept, missing) = release_table(&"/releases".to_string(), &entries);
    assert_eq!(kept.len(), 1);
    assert_eq!(
        missing,
        vec![vec![
            "q".to_string(),
            "2.0".to_string(),
            "/releases/stable/gone.tar".to_string(),
        ]]
    );
    assert_eq!(kept.len() + missing.len(), entries.len());
}
