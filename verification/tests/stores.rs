use butido::filestore::FileStoreImpl;
use butido::filestore::StagingStore;
use butido::filestore::StoreError;
use butido::store_path::ArtifactPath;
use butido::store_path::PathError;
use butido::store_path::StoreRoot;

fn ap(s: &str) -> ArtifactPath {
    ArtifactPath::new(s.as_bytes().to_vec()).expect("valid artifact path")
}

fn root(s: &str) -> StoreRoot {
    StoreRoot::new(s.as_bytes().to_vec()).expect("valid store root")
}

#[test]
fn accepts_plain_relative_paths() {
    assert!(ArtifactPath::new(b"out.tar".to_vec()).is_ok());
    assert!(ArtifactPath::new(b"a/b/c.txt".to_vec()).is_ok());
    assert!(ArtifactPath::new(b"weird name.bin".to_vec()).is_ok());
}

#[test]
fn rejects_bad_relative_paths() {
    assert_eq!(ArtifactPath::new(b"".to_vec()).err(), Some(PathError::Empty));
    assert_eq!(ArtifactPath::new(b"/abs/path".to_vec()).err(), Some(PathError::WrongAnchor));
    assert_eq!(ArtifactPath::new(b"a//b".to_vec()).err(), Some(PathError::EmptyComponent));
    assert_eq!(ArtifactPath::new(b"a/".to_vec()).err(), Some(PathError::EmptyComponent));
    assert_eq!(ArtifactPath::new(b"..".to_vec()).err(), Some(PathError::DotComponent));
    assert_eq!(ArtifactPath::new(b"a/../b".to_vec()).err(), Some(PathError::DotComponent));
    assert_eq!(ArtifactPath::new(b"./a".to_vec()).err(), Some(PathError::DotComponent));
    assert_eq!(ArtifactPath::new(b"a/.".to_vec()).err(), Some(PathError::DotComponent));
}

#[test]
fn dots_inside_names_are_allowed() {
    assert!(ArtifactPath::new(b"a.b/c..d.tar.gz".to_vec()).is_ok());
    assert!(ArtifactPath::new(b"...".to_vec()).is_ok());
}

#[test]
fn accepts_absolute_roots() {
    assert!(StoreRoot::new(b"/".to_vec()).is_ok());
    assert!(StoreRoot::new(b"/srv/store".to_vec()).is_ok());
}

#[test]
fn rejects_bad_roots() {
    assert_eq!(StoreRoot::new(b"".to_vec()).err(), Some(PathError::Empty));
    assert_eq!(StoreRoot::new(b"relative".to_vec()).err(), Some(PathError::WrongAnchor));
    assert_eq!(StoreRoot::new(b"/srv//x".to_vec()).err(), Some(PathError::EmptyComponent));
    assert_eq!(StoreRoot::new(b"/srv/..".to_vec()).err(), Some(PathError::DotComponent));
}

#[test]
fn join_builds_the_full_path() {
    assert_eq!(root("/srv/store").join(&ap("a/b.tar")), b"/srv/store/a/b.tar".to_vec());
    assert_eq!(root("/").join(&ap("a")), b"/a".to_vec());
}

#[test]
fn strip_inverts_join() {
    let r = root("/srv/store");
    let p = ap("sub/out.tar");
    let full = r.join(&p);
    let back = r.strip(&full).expect("strip must succeed on a joined path");
    assert!(back.same_path(&p));
}

#[test]
fn strip_rejects_foreign_paths() {
    let r = root("/srv/store");
    assert!(r.strip(b"/other/root/x").is_err());
    assert!(r.strip(b"/srv/store").is_err());
    assert!(r.strip(b"/srv/storex/y").is_err());
    assert!(r.strip(b"/srv/store/../x").is_err());
}

#[test]
fn store_get_finds_loaded_artifacts() {
    let s = FileStoreImpl::load(root("/srv/staging"), vec![ap("a.tar"), ap("b/c.tar")]);
    assert!(s.get(&ap("a.tar")).is_some());
    assert!(s.get(&ap("b/c.tar")).is_some());
    assert!(s.get(&ap("missing")).is_none());
    assert_eq!(s.root_path().as_bytes(), &b"/srv/staging".to_vec());
}

#[test]
fn store_load_keeps_duplicates_once() {
    let s = FileStoreImpl::load(root("/srv/staging"), vec![ap("a.tar"), ap("a.tar")]);
    assert!(s.get(&ap("a.tar")).is_some());
}

#[test]
fn store_refuses_to_overwrite() {
    let mut s = FileStoreImpl::load(root("/srv/staging"), vec![]);
    let a = s.load_from_path(&ap("out.tar")).expect("first insert succeeds");
    assert!(a.path().same_path(&ap("out.tar")));
    assert_eq!(s.load_from_path(&ap("out.tar")).err(), Some(StoreError::Conflict));
    assert!(s.get(&ap("out.tar")).is_some());
}

#[test]
fn staging_store_registers_artifacts() {
    let mut s = StagingStore::load(root("/srv/staging"), vec![]);
    assert!(s.load_from_path(&ap("uuid-1/out.tar")).is_ok());
    assert_eq!(
        s.load_from_path(&ap("uuid-1/out.tar")).err(),
        Some(StoreError::Conflict)
    );
}
