use butido::schedule::ready_nodes;
use butido::schedule::skipped_nodes;
use butido::tree::Dep;
use butido::tree::PackageDef;
use butido::tree::Repository;
use butido::tree::Tree;
use butido::schedule::EndpointSetupError;
use butido::schedule::EndpointState;
use butido::schedule::PolicyViolation;
use butido::schedule::image_policy;
use butido::schedule::select_endpoint;

fn endpoint(name: &str, capacity: u64, load: u64, images: &[&str]) -> EndpointState {
    EndpointState {
        name: name.to_string(),
        capacity,
        load,
        images: images.iter().map(|s| s.to_string()).collect(),
    }
}

#[test]
fn selection_needs_the_image_and_free_capacity() {
    let eps = vec![
        endpoint("a", 2, 2, &["img-x"]),
        endpoint("b", 2, 1, &["img-y"]),
        endpoint("c", 2, 1, &["img-x"]),
    ];
    assert_eq!(select_endpoint(&eps, &"img-x".to_string()), Some(2));
}

#[test]
fn selection_prefers_the_least_loaded() {
    let eps = vec![
        endpoint("a", 4, 3, &["img-x"]),
        endpoint("b", 4, 1, &["img-x"]),
        endpoint("c", 4, 2, &["img-x"]),
    ];
    assert_eq!(select_endpoint(&eps, &"img-x".to_string()), Some(1));
}

#[test]
fn ties_break_by_configured_order() {
    let eps = vec![
        endpoint("a", 4, 1, &["img-x"]),
        endpoint("b", 4, 1, &["img-x"]),
    ];
    assert_eq!(select_endpoint(&eps, &"img-x".to_string()), Some(0));
}

#[test]
fn a_full_endpoint_never_takes_one_more_job() {
    let eps = vec![endpoint("a", 1, 1, &["img-x"])];
    assert_eq!(select_endpoint(&eps, &"img-x".to_string()), None);
    let mut e = endpoint("a", 1, 0, &["img-x"]);
    e.assign();
    assert_eq!(e.load, 1);
    let after = select_endpoint(&vec![e], &"img-x".to_string());
    assert_eq!(after, None);
}

#[test]
fn releasing_a_job_frees_capacity_again() {
    let mut e = endpoint("a", 1, 0, &["img-x"]);
    e.assign();
    e.release();
    assert_eq!(e.load, 0);
    assert_eq!(select_endpoint(&vec![e], &"img-x".to_string()), Some(0));
}

#[test]
fn validation_reports_the_missing_image() {
    let e = endpoint("a", 1, 0, &["img-y"]);
    let required = vec!["img-y".to_string(), "img-x".to_string()];
    let versions = vec!["1.40".to_string()];
    let r = e.validate(&required, &versions, &"1.40".to_string());
    assert_eq!(r, Err(EndpointSetupError::MissingImage { image: 1 }));
}

#[test]
fn validation_reports_an_unsupported_version() {
    let e = endpoint("a", 1, 0, &["img-x"]);
    let required = vec!["img-x".to_string()];
    let versions = vec!["1.40".to_string(), "1.41".to_string()];
    let r = e.validate(&required, &versions, &"0.9".to_string());
    assert_eq!(r, Err(EndpointSetupError::UnsupportedVersion));
}

#[test]
fn validation_passes_a_well_equipped_endpoint() {
    let e = endpoint("a", 1, 0, &["img-x", "img-y"]);
    let required = vec!["img-x".to_string()];
    let versions = vec!["1.40".to_string()];
    assert_eq!(e.validate(&required, &versions, &"1.40".to_string()), Ok(()));
}

#[test]
fn no_endpoint_with_the_image_means_no_assignment() {
    let eps = vec![
        endpoint("a", 2, 0, &["img-y"]),
        endpoint("b", 2, 0, &["img-z"]),
    ];
    assert_eq!(select_endpoint(&eps, &"img-x".to_string()), None);
}

#[test]
fn an_image_off_the_allowlist_is_a_policy_violation() {
    let allowed = Some(vec!["img-y".to_string()]);
    let denied: Vec<String> = Vec::new();
    let r = image_policy(&allowed, &denied, &"img-x".to_string());
    assert_eq!(r, Err(PolicyViolation::NotAllowed));
}

#[test]
fn a_denylisted_image_is_a_policy_violation() {
    let denied = vec!["img-x".to_string()];
    let r = image_policy(&None, &denied, &"img-x".to_string());
    assert_eq!(r, Err(PolicyViolation::Denied));
}

#[test]
fn an_allowed_image_passes_the_policy() {
    let allowed = Some(vec!["img-x".to_string(), "img-y".to_string()]);
    let denied = vec!["img-z".to_string()];
    assert_eq!(image_policy(&allowed, &denied, &"img-x".to_string()), Ok(()));
    assert_eq!(image_policy(&None, &denied, &"img-x".to_string()), Ok(()));
}


fn diamond() -> (Repository, Tree) {
    let pkg = |name: &str, deps: &[&str]| PackageDef {
        name: name.to_string(),
        version: "1".to_string(),
        deps: deps
            .iter()
            .map(|n| Dep { name: n.to_string(), version: "1".to_string() })
            .collect(),
    };
    let repo = Repository {
        packages: vec![
            pkg("a", &["b", "c"]),
            pkg("b", &["d"]),
            pkg("c", &["d"]),
            pkg("d", &[]),
        ],
    };
    let tree = Tree::add_package(&repo, 0).expect("tree must build");
    (repo, tree)
}

#[test]
fn only_jobs_with_succeeded_dependencies_become_ready() {
    // Arena order for the diamond: d, b, c, a.
    let (_, tree) = diamond();
    let nobody = vec![false, false, false, false];
    assert_eq!(ready_nodes(&tree, &nobody, &nobody), vec![0]);
    let d_done = vec![true, false, false, false];
    let d_started = vec![true, false, false, false];
    assert_eq!(ready_nodes(&tree, &d_done, &d_started), vec![1, 2]);
    let bc_done = vec![true, true, true, false];
    let bc_started = vec![true, true, true, false];
    assert_eq!(ready_nodes(&tree, &bc_done, &bc_started), vec![3]);
}

#[test]
fn a_started_job_never_enters_the_ready_queue_again() {
    let (_, tree) = diamond();
    let succeeded = vec![false, false, false, false];
    let started = vec![true, false, false, false];
    assert_eq!(ready_nodes(&tree, &succeeded, &started), Vec::<usize>::new());
}

#[test]
fn a_failed_leaf_cuts_off_everything_above_it() {
    let (_, tree) = diamond();
    let failed = vec![true, false, false, false];
    assert_eq!(skipped_nodes(&tree, &failed), vec![false, true, true, true]);
}

#[test]
fn a_failure_in_one_branch_spares_the_other() {
    let (_, tree) = diamond();
    // b failed; c is fine, a is cut off through b.
    let failed = vec![false, true, false, false];
    assert_eq!(skipped_nodes(&tree, &failed), vec![false, false, false, true]);
}

#[test]
fn no_failures_means_nothing_is_skipped() {
    let (_, tree) = diamond();
    let failed = vec![false, false, false, false];
    assert_eq!(skipped_nodes(&tree, &failed), vec![false, false, false, false]);
}
