//! The journal's history surface: row types mirroring the relational
//! schema, and the row-building logic behind each query command.
//!
//! The database itself is reached over a connection and is I/O; the
//! functions here take the fetched rows as plain values and build exactly
//! the table cells the commands print.  Ids render in decimal; a job's
//! outcome is read from its stored log through the log parser.

use vstd::prelude::*;
use vstd::string::StringExecFns;
use crate::dec::dec_chars;
use crate::dec::u64_to_string;
use crate::log::ParsedLog;
use crate::log::parse_spec;
use crate::log::success_spec;

verus! {

/// A row of `artifacts`: a file a job produced.
#[derive(Debug)]
pub struct Artifact {
    pub id: u64,
    pub path: String,
    pub job_id: u64,
}

/// A row of `jobs`: one executed build task.
#[derive(Debug)]
pub struct Job {
    pub id: u64,
    pub uuid: String,
    pub submit_id: u64,
    pub endpoint_id: u64,
    pub package_id: u64,
    pub image_id: u64,
    pub container_hash: String,
    pub script_text: String,
    pub log_text: Vec<u8>,
}

/// A row of `submits`: one submission.
#[derive(Debug)]
pub struct Submit {
    pub id: u64,
    pub uuid: String,
    pub submit_time: String,
}

/// A row of `envvars`: one environment binding.
#[derive(Debug)]
pub struct EnvVar {
    pub id: u64,
    pub name: String,
    pub value: String,
}

/// A row of `images`: one container image.
#[derive(Debug)]
pub struct Image {
    pub id: u64,
    pub name: String,
}

/// A row of `endpoints`: one container host.
#[derive(Debug)]
pub struct Endpoint {
    pub id: u64,
    pub name: String,
}

/// A row of `packages`.
#[derive(Debug)]
pub struct Package {
    pub id: u64,
    pub name: String,
    pub version: String,
}

/// A row of `releases`: one released artifact.
#[derive(Debug)]
pub struct Release {
    pub id: u64,
    pub artifact_id: u64,
    pub release_store_id: u64,
    pub release_date: String,
}

/// A row of `release_stores`: one named release area.
#[derive(Debug)]
pub struct ReleaseStore {
    pub id: u64,
    pub store_name: String,
}

/// The cell texts of one table row.
pub open spec fn cells(v: Vec<String>) -> Seq<Seq<char>> {
    Seq::new(v@.len() as nat, |j: int| v@[j]@)
}

/// The cells of one artifact listing row: id, path, release date or `no`,
/// and the owning job's uuid.
pub open spec fn artifact_row(a: Artifact, j: Job, rel: Option<Release>) -> Seq<Seq<char>> {
    seq![
        dec_chars(a.id as nat),
        a.path@,
        match rel {
            Some(r) => r.release_date@,
            None => "no"@,
        },
        j.uuid@,
    ]
}

/// Lists artifacts: one row per fetched (artifact, job, release) triple.
pub fn artifact_table(rows: &Vec<(Artifact, Job, Option<Release>)>) -> (r: Vec<Vec<String>>)
    ensures
        r@.len() == rows@.len(),
        forall|i: int|
            0 <= i < rows@.len() ==> cells(#[trigger] r@[i]) == artifact_row(
                rows@[i].0,
                rows@[i].1,
                rows@[i].2,
            ),
{
    let n = rows.len();
    let mut out: Vec<Vec<String>> = Vec::new();
    let mut k: usize = 0;
    while k < n
        invariant
            0 <= k <= n,
            n == rows@.len(),
            out@.len() == k,
            forall|i: int|
                0 <= i < k ==> cells(#[trigger] out@[i]) == artifact_row(
                    rows@[i].0,
                    rows@[i].1,
                    rows@[i].2,
                ),
        decreases n - k,
    {
        let row = &rows[k];
        let mut cs: Vec<String> = Vec::new();
        cs.push(u64_to_string(row.0.id));
        cs.push(row.0.path.clone());
        match &row.2 {
            Some(rel) => cs.push(rel.release_date.clone()),
            None => cs.push("no".to_owned()),
        }
        cs.push(row.1.uuid.clone());
        proof {
            assert(cells(cs) =~~= artifact_row(rows@[k as int].0, rows@[k as int].1, rows@[k as int].2));
        }
        out.push(cs);
        k = k + 1;
    }
    out
}

/// The cells of one environment-variable row.
pub open spec fn envvar_row(e: EnvVar) -> Seq<Seq<char>> {
    seq![dec_chars(e.id as nat), e.name@, e.value@]
}

/// Lists environment variables.
pub fn envvar_table(rows: &Vec<EnvVar>) -> (r: Vec<Vec<String>>)
    ensures
        r@.len() == rows@.len(),
        forall|i: int|
            0 <= i < rows@.len() ==> cells(#[trigger] r@[i]) == envvar_row(rows@[i]),
{
    let n = rows.len();
    let mut out: Vec<Vec<String>> = Vec::new();
    let mut k: usize = 0;
    while k < n
        invariant
            0 <= k <= n,
            n == rows@.len(),
            out@.len() == k,
            forall|i: int| 0 <= i < k ==> cells(#[trigger] out@[i]) == envvar_row(rows@[i]),
        decreases n - k,
    {
        let row = &rows[k];
        let mut cs: Vec<String> = Vec::new();
        cs.push(u64_to_string(row.id));
        cs.push(row.name.clone());
        cs.push(row.value.clone());
        proof {
            assert(cells(cs) =~~= envvar_row(rows@[k as int]));
        }
        out.push(cs);
        k = k + 1;
    }
    out
}

/// The cells of one image row.
pub open spec fn image_row(im: Image) -> Seq<Seq<char>> {
    seq![dec_chars(im.id as nat), im.name@]
}

/// Lists images.
pub fn image_table(rows: &Vec<Image>) -> (r: Vec<Vec<String>>)
    ensures
        r@.len() == rows@.len(),
        forall|i: int| 0 <= i < rows@.len() ==> cells(#[trigger] r@[i]) == image_row(rows@[i]),
{
    let n = rows.len();
    let mut out: Vec<Vec<String>> = Vec::new();
    let mut k: usize = 0;
    while k < n
        invariant
            0 <= k <= n,
            n == rows@.len(),
            out@.len() == k,
            forall|i: int| 0 <= i < k ==> cells(#[trigger] out@[i]) == image_row(rows@[i]),
        decreases n - k,
    {
        let row = &rows[k];
        let mut cs: Vec<String> = Vec::new();
        cs.push(u64_to_string(row.id));
        cs.push(row.name.clone());
        proof {
            assert(cells(cs) =~~= image_row(rows@[k as int]));
        }
        out.push(cs);
        k = k + 1;
    }
    out
}

/// The cells of one submit row: id, time, uuid.
pub open spec fn submit_row(s: Submit) -> Seq<Seq<char>> {
    seq![dec_chars(s.id as nat), s.submit_time@, s.uuid@]
}

/// Lists submits.
pub fn submit_table(rows: &Vec<Submit>) -> (r: Vec<Vec<String>>)
    ensures
        r@.len() == rows@.len(),
        forall|i: int| 0 <= i < rows@.len() ==> cells(#[trigger] r@[i]) == submit_row(rows@[i]),
{
    let n = rows.len();
    let mut out: Vec<Vec<String>> = Vec::new();
    let mut k: usize = 0;
    while k < n
        invariant
            0 <= k <= n,
            n == rows@.len(),
            out@.len() == k,
            forall|i: int| 0 <= i < k ==> cells(#[trigger] out@[i]) == submit_row(rows@[i]),
        decreases n - k,
    {
        let row = &rows[k];
        let mut cs: Vec<String> = Vec::new();
        cs.push(u64_to_string(row.id));
        cs.push(row.submit_time.clone());
        cs.push(row.uuid.clone());
        proof {
            assert(cells(cs) =~~= submit_row(rows@[k as int]));
        }
        out.push(cs);
        k = k + 1;
    }
    out
}

/// Lists the submits that included a package followed by those made for it,
/// as one table: the `with` rows first, the `for` rows after them.
pub fn submit_table_with_and_for(with_pkg: &Vec<Submit>, for_pkg: &Vec<Submit>) -> (r: Vec<
    Vec<String>,
>)
    ensures
        r@.len() == with_pkg@.len() + for_pkg@.len(),
        forall|i: int|
            0 <= i < with_pkg@.len() ==> cells(#[trigger] r@[i]) == submit_row(with_pkg@[i]),
        forall|i: int|
            0 <= i < for_pkg@.len() ==> cells(#[trigger] r@[with_pkg@.len() + i]) == submit_row(
                for_pkg@[i],
            ),
{
    let mut out = submit_table(with_pkg);
    let mut tail = submit_table(for_pkg);
    let ghost head_len = out@.len();
    let ghost tail_view = tail@;
    out.append(&mut tail);
    proof {
        assert forall|i: int| 0 <= i < for_pkg@.len() implies cells(
            #[trigger] out@[with_pkg@.len() + i],
        ) == submit_row(for_pkg@[i]) by {
            assert(out@[head_len + i] == tail_view[i]);
        }
    }
    out
}

/// The text the job listing shows for a job's outcome, read from its log:
/// `yes` after a terminal success, `no` after a terminal failure, and
/// `unknown` when the log holds no terminal state.
pub open spec fn success_label_spec(log: Seq<u8>) -> Seq<char> {
    match success_spec(parse_spec(log)) {
        Some(b) => if b {
            "yes"@
        } else {
            "no"@
        },
        None => "unknown"@,
    }
}

/// Reads a job's outcome from its stored log text.
pub fn success_label(log: &[u8]) -> (r: String)
    ensures
        r@ == success_label_spec(log@),
{
    let parsed = ParsedLog::build_from(log);
    match parsed.is_successful() {
        Some(true) => "yes".to_owned(),
        Some(false) => "no".to_owned(),
        None => "unknown".to_owned(),
    }
}

/// The cells of one job listing row.
pub open spec fn job_row(j: Job, s: Submit, e: Endpoint, p: Package) -> Seq<Seq<char>> {
    seq![
        dec_chars(j.id as nat),
        s.uuid@,
        j.uuid@,
        s.submit_time@,
        e.name@,
        success_label_spec(j.log_text@),
        p.name@,
        p.version@,
    ]
}

/// Lists jobs with their submit, endpoint and package, reading each job's
/// outcome from its log.
pub fn job_table(rows: &Vec<(Job, Submit, Endpoint, Package)>) -> (r: Vec<Vec<String>>)
    ensures
        r@.len() == rows@.len(),
        forall|i: int|
            0 <= i < rows@.len() ==> cells(#[trigger] r@[i]) == job_row(
                rows@[i].0,
                rows@[i].1,
                rows@[i].2,
                rows@[i].3,
            ),
{
    let n = rows.len();
    let mut out: Vec<Vec<String>> = Vec::new();
    let mut k: usize = 0;
    while k < n
        invariant
            0 <= k <= n,
            n == rows@.len(),
            out@.len() == k,
            forall|i: int|
                0 <= i < k ==> cells(#[trigger] out@[i]) == job_row(
                    rows@[i].0,
                    rows@[i].1,
                    rows@[i].2,
                    rows@[i].3,
                ),
        decreases n - k,
    {
        let row = &rows[k];
        let mut cs: Vec<String> = Vec::new();
        cs.push(u64_to_string(row.0.id));
        cs.push(row.1.uuid.clone());
        cs.push(row.0.uuid.clone());
        cs.push(row.1.submit_time.clone());
        cs.push(row.2.name.clone());
        cs.push(success_label(row.0.log_text.as_slice()));
        cs.push(row.3.name.clone());
        cs.push(row.3.version.clone());
        proof {
            assert(cells(cs) =~~= job_row(
                rows@[k as int].0,
                rows@[k as int].1,
                rows@[k as int].2,
                rows@[k as int].3,
            ));
        }
        out.push(cs);
        k = k + 1;
    }
    out
}

/// The cells of the single-job summary row: uuid, outcome, package name and
/// version, endpoint, image, container.
pub open spec fn job_detail_row(j: Job, e: Endpoint, p: Package, im: Image) -> Seq<Seq<char>> {
    seq![
        j.uuid@,
        success_label_spec(j.log_text@),
        p.name@,
        p.version@,
        e.name@,
        im.name@,
        j.container_hash@,
    ]
}

/// Builds the one-row summary of a single job.
pub fn job_details(j: &Job, e: &Endpoint, p: &Package, im: &Image) -> (r: Vec<String>)
    ensures
        cells(r) == job_detail_row(*j, *e, *p, *im),
{
    let mut cs: Vec<String> = Vec::new();
    cs.push(j.uuid.clone());
    cs.push(success_label(j.log_text.as_slice()));
    cs.push(p.name.clone());
    cs.push(p.version.clone());
    cs.push(e.name.clone());
    cs.push(im.name.clone());
    cs.push(j.container_hash.clone());
    proof {
        assert(cells(cs) =~~= job_detail_row(*j, *e, *p, *im));
    }
    cs
}


/// One fetched release, with whether its file is on disk.
#[derive(Debug)]
pub struct ReleaseEntry {
    pub artifact: Artifact,
    pub package: Package,
    pub release: Release,
    pub store: ReleaseStore,
    pub present: bool,
}

/// The rows of a whole table.
pub open spec fn table_view(t: Vec<Vec<String>>) -> Seq<Seq<Seq<char>>> {
    Seq::new(t@.len() as nat, |i: int| cells(t@[i]))
}

/// The full path of a released artifact: the releases directory, the store
/// name, and the artifact's path.
pub open spec fn release_path(dir: Seq<char>, store_name: Seq<char>, art_path: Seq<char>) -> Seq<
    char,
> {
    dir + "/"@ + store_name + "/"@ + art_path
}

/// The cells of one release listing row.
pub open spec fn release_row(dir: Seq<char>, e: ReleaseEntry) -> Seq<Seq<char>> {
    seq![
        e.package.name@,
        e.package.version@,
        e.release.release_date@,
        release_path(dir, e.store.store_name@, e.artifact.path@),
    ]
}

/// The cells of one missing-release report line: package name, version, and
/// the path at which the file was expected.
pub open spec fn missing_row(dir: Seq<char>, e: ReleaseEntry) -> Seq<Seq<char>> {
    seq![
        e.package.name@,
        e.package.version@,
        release_path(dir, e.store.store_name@, e.artifact.path@),
    ]
}

/// The listing rows of the releases whose files are on disk, in order.
pub open spec fn kept_rows(dir: Seq<char>, entries: Seq<ReleaseEntry>) -> Seq<Seq<Seq<char>>>
    decreases entries.len(),
{
    if entries.len() == 0 {
        Seq::<Seq<Seq<char>>>::empty()
    } else {
        let rest = kept_rows(dir, entries.drop_first());
        if entries[0].present {
            seq![release_row(dir, entries[0])] + rest
        } else {
            rest
        }
    }
}

/// The report rows of the releases whose files are absent, in order.
pub open spec fn missing_rows(dir: Seq<char>, entries: Seq<ReleaseEntry>) -> Seq<Seq<Seq<char>>>
    decreases entries.len(),
{
    if entries.len() == 0 {
        Seq::<Seq<Seq<char>>>::empty()
    } else {
        let rest = missing_rows(dir, entries.drop_first());
        if entries[0].present {
            rest
        } else {
            seq![missing_row(dir, entries[0])] + rest
        }
    }
}

/// Every fetched release lands in exactly one of the two tables: shown when
/// its file exists, reported as missing otherwise, never dropped silently.
pub proof fn lemma_release_partition(dir: Seq<char>, entries: Seq<ReleaseEntry>)
    ensures
        kept_rows(dir, entries).len() + missing_rows(dir, entries).len() == entries.len(),
    decreases entries.len(),
{
    if entries.len() > 0 {
        lemma_release_partition(dir, entries.drop_first());
    }
}

/// Builds the path a released artifact must be at.
fn release_path_exec(dir: &String, store_name: &String, art_path: &String) -> (r: String)
    ensures
        r@ == release_path(dir@, store_name@, art_path@),
{
    let mut p = dir.clone();
    p.append("/");
    p.append(store_name.as_str());
    p.append("/");
    p.append(art_path.as_str());
    proof {
        assert(p@ =~= release_path(dir@, store_name@, art_path@));
    }
    p
}

/// Lists releases: entries whose file is on disk become listing rows, the
/// others become missing-release report lines.  Nothing is dropped: an
/// absent file is reported, never treated as present.
pub fn release_table(dir: &String, entries: &Vec<ReleaseEntry>) -> (r: (
    Vec<Vec<String>>,
    Vec<Vec<String>>,
))
    ensures
        table_view(r.0) == kept_rows(dir@, entries@),
        table_view(r.1) == missing_rows(dir@, entries@),
        r.0@.len() + r.1@.len() == entries@.len(),
{
    let n = entries.len();
    let mut kept: Vec<Vec<String>> = Vec::new();
    let mut missing: Vec<Vec<String>> = Vec::new();
    let mut k: usize = 0;
    proof {
        assert(entries@.skip(0) =~= entries@);
        assert(table_view(kept) =~~= Seq::<Seq<Seq<char>>>::empty());
        assert(table_view(missing) =~~= Seq::<Seq<Seq<char>>>::empty());
    }
    while k < n
        invariant
            0 <= k <= n,
            n == entries@.len(),
            kept@.len() + missing@.len() == k,
            kept_rows(dir@, entries@) =~~= table_view(kept) + kept_rows(
                dir@,
                entries@.skip(k as int),
            ),
            missing_rows(dir@, entries@) =~~= table_view(missing) + missing_rows(
                dir@,
                entries@.skip(k as int),
            ),
        decreases n - k,
    {
        let e = &entries[k];
        let ghost s_k = entries@.skip(k as int);
        proof {
            assert(s_k[0] == entries@[k as int]);
            assert(s_k.drop_first() =~= entries@.skip(k + 1));
        }
        let path = release_path_exec(dir, &e.store.store_name, &e.artifact.path);
        let mut cs: Vec<String> = Vec::new();
        cs.push(e.package.name.clone());
        cs.push(e.package.version.clone());
        if e.present {
            cs.push(e.release.release_date.clone());
            cs.push(path);
            proof {
                assert(cells(cs) =~~= release_row(dir@, entries@[k as int]));
            }
            let ghost kept_old = table_view(kept);
            kept.push(cs);
            proof {
                assert(table_view(kept) =~~= kept_old.push(release_row(dir@, entries@[k as int])));
                assert(kept_old.push(release_row(dir@, entries@[k as int])) + kept_rows(
                    dir@,
                    entries@.skip(k + 1),
                ) =~~= kept_old + kept_rows(dir@, s_k));
            }
        } else {
            cs.push(path);
            proof {
                assert(cells(cs) =~~= missing_row(dir@, entries@[k as int]));
            }
            let ghost missing_old = table_view(missing);
            missing.push(cs);
            proof {
                assert(table_view(missing) =~~= missing_old.push(missing_row(
                    dir@,
                    entries@[k as int],
                )));
                assert(missing_old.push(missing_row(dir@, entries@[k as int])) + missing_rows(
                    dir@,
                    entries@.skip(k + 1),
                ) =~~= missing_old + missing_rows(dir@, s_k));
            }
        }
        k = k + 1;
    }
    proof {
        assert(entries@.skip(n as int) =~= Seq::<ReleaseEntry>::empty());
        assert(kept_rows(dir@, entries@) =~~= table_view(kept));
        assert(missing_rows(dir@, entries@) =~~= table_view(missing));
        lemma_release_partition(dir@, entries@);
    }
    (kept, missing)
}

} // verus!
