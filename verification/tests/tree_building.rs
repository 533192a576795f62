use butido::tree::BuildJob;
use butido::tree::Dep;
use butido::tree::PackageDef;
use butido::tree::Repository;
use butido::tree::Tree;
use butido::tree::TreeError;
use butido::tree::jobs_from_tree;

fn pkg(name: &str, version: &str, deps: &[(&str, &str)]) -> PackageDef {
    PackageDef {
        name: name.to_string(),
        version: version.to_string(),
        deps: deps
            .iter()
            .map(|(n, v)| Dep { name: n.to_string(), version: v.to_string() })
            .collect(),
    }
}

fn job_names(jobs: &[BuildJob]) -> Vec<String> {
    jobs.iter().map(|j| j.name.clone()).collect()
}

#[test]
fn a_root_without_dependencies_yields_exactly_one_job() {
    let repo = Repository { packages: vec![pkg("p", "1.0", &[])] };
    let tree = Tree::add_package(&repo, 0).expect("tree must build");
    assert_eq!(tree.nodes.len(), 1);
    assert_eq!(tree.all_packages(), vec![0]);
    let jobs = jobs_from_tree(&repo, &tree, &"img-x".to_string());
    assert_eq!(jobs.len(), 1);
    assert_eq!(jobs[0].name, "p");
    assert_eq!(jobs[0].version, "1.0");
    assert_eq!(jobs[0].image, "img-x");
}

#[test]
fn a_diamond_collapses_to_four_jobs_with_dependencies_first() {
    let repo = Repository {
        packages: vec![
            pkg("a", "1", &[("b", "1"), ("c", "1")]),
            pkg("b", "1", &[("d", "1")]),
            pkg("c", "1", &[("d", "1")]),
            pkg("d", "1", &[]),
        ],
    };
    let tree = Tree::add_package(&repo, 0).expect("tree must build");
    assert_eq!(tree.nodes.len(), 4);
    let jobs = jobs_from_tree(&repo, &tree, &"img-x".to_string());
    assert_eq!(jobs.len(), 4);
    let names = job_names(&jobs);
    assert_eq!(names, vec!["d", "b", "c", "a"]);
    let d_pos = names.iter().position(|n| n == "d").unwrap();
    let b_pos = names.iter().position(|n| n == "b").unwrap();
    let c_pos = names.iter().position(|n| n == "c").unwrap();
    let a_pos = names.iter().position(|n| n == "a").unwrap();
    assert!(d_pos < b_pos && d_pos < c_pos);
    assert!(b_pos < a_pos && c_pos < a_pos);
}

#[test]
fn a_dependency_circle_is_rejected_before_any_tree_exists() {
    let repo = Repository {
        packages: vec![
            pkg("a", "1", &[("b", "1")]),
            pkg("b", "1", &[("a", "1")]),
        ],
    };
    match Tree::add_package(&repo, 0) {
        Err(TreeError::Cycle { path }) => {
            assert_eq!(path, vec![0, 1]);
        }
        other => panic!("expected a cycle error, got {:?}", other),
    }
}

#[test]
fn a_package_depending_on_itself_is_a_cycle() {
    let repo = Repository { packages: vec![pkg("a", "1", &[("a", "1")])] };
    match Tree::add_package(&repo, 0) {
        Err(TreeError::Cycle { path }) => {
            assert_eq!(path, vec![0]);
        }
        other => panic!("expected a cycle error, got {:?}", other),
    }
}

#[test]
fn an_unresolved_dependency_is_fatal() {
    let repo = Repository { packages: vec![pkg("a", "1", &[("missing", "9")])] };
    match Tree::add_package(&repo, 0) {
        Err(TreeError::Unresolved { package, dep }) => {
            assert_eq!(package, 0);
            assert_eq!(dep, 0);
        }
        other => panic!("expected an unresolved dependency, got {:?}", other),
    }
}

#[test]
fn find_resolves_by_name_and_version() {
    let repo = Repository {
        packages: vec![pkg("p", "1.0", &[]), pkg("p", "2.0", &[]), pkg("q", "1.0", &[])],
    };
    let d = Dep { name: "p".to_string(), version: "2.0".to_string() };
    assert_eq!(repo.find(&d), Some(1));
    let d2 = Dep { name: "p".to_string(), version: "3.0".to_string() };
    assert_eq!(repo.find(&d2), None);
    assert_eq!(repo.find_by_name(&"p".to_string()), vec![0, 1]);
    assert_eq!(repo.find_by_name(&"q".to_string()), vec![2]);
    assert!(repo.find_by_name(&"z".to_string()).is_empty());
}

#[test]
fn job_sets_run_dependencies_strictly_earlier() {
    // Diamond arena order: d, b, c, a.
    let repo = Repository {
        packages: vec![
            pkg("a", "1", &[("b", "1"), ("c", "1")]),
            pkg("b", "1", &[("d", "1")]),
            pkg("c", "1", &[("d", "1")]),
            pkg("d", "1", &[]),
        ],
    };
    let tree = Tree::add_package(&repo, 0).expect("tree must build");
    let (sets, set_of) = butido::tree::sets_from_tree(&tree);
    assert_eq!(sets, vec![vec![0], vec![1, 2], vec![3]]);
    assert_eq!(set_of, vec![0, 1, 1, 2]);
}

#[test]
fn a_single_package_makes_a_single_set() {
    let repo = Repository { packages: vec![pkg("p", "1.0", &[])] };
    let tree = Tree::add_package(&repo, 0).expect("tree must build");
    let (sets, set_of) = butido::tree::sets_from_tree(&tree);
    assert_eq!(sets, vec![vec![0]]);
    assert_eq!(set_of, vec![0]);
}
