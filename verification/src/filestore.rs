//! The file store: a store root plus an insertion-ordered map from artifact
//! path to artifact.
//!
//! The staging store and the release store behave the same underneath, so one
//! implementation carries both; the two wrappers differ only in policy.  The
//! map is append-only within a run, and the same path may not be inserted
//! twice.  Walking a directory to enumerate files is I/O and happens outside;
//! the store is built from the enumerated paths.

use vstd::prelude::*;
use crate::store_path::ArtifactPath;
use crate::store_path::StoreRoot;

verus! {

/// A file produced by a completed job, addressed by its path under a root.
#[derive(Debug)]
pub struct Artifact {
    path: ArtifactPath,
}

impl View for Artifact {
    type V = Seq<u8>;

    closed spec fn view(&self) -> Seq<u8> {
        self.path@
    }
}

impl Artifact {
    /// An artifact addressed by `path`.
    pub fn new(path: ArtifactPath) -> (r: Artifact)
        ensures
            r@ == path@,
    {
        Artifact { path }
    }

    /// The artifact's path relative to its store root.
    pub fn path(&self) -> (r: &ArtifactPath)
        ensures
            r@ == self@,
    {
        &self.path
    }
}

impl Clone for Artifact {
    /// Clones the artifact; the copy addresses the same path.
    fn clone(&self) -> (r: Self)
        ensures
            r@ == self@,
    {
        Artifact { path: self.path.clone() }
    }
}

/// Why the store refused an operation.
#[derive(Clone, Copy, Debug, PartialEq, Eq, Structural)]
pub enum StoreError {
    /// An artifact was registered under a path already present.
    Conflict,
}

/// The file store implementation shared by staging and release stores.
#[derive(Debug)]
pub struct FileStoreImpl {
    root: StoreRoot,
    store: Vec<(ArtifactPath, Artifact)>,
}

impl FileStoreImpl {
    /// The root path under which every artifact of this store lives.
    pub closed spec fn root_view(self) -> Seq<u8> {
        self.root@
    }

    /// The stored artifact paths, in insertion order.
    pub closed spec fn paths(self) -> Seq<Seq<u8>> {
        Seq::new(self.store@.len() as nat, |i: int| self.store@[i].0@)
    }

    /// Is an artifact stored under path `p`?
    pub open spec fn contains_path(self, p: Seq<u8>) -> bool {
        self.paths().contains(p)
    }

    /// The store is well formed: no path occurs twice, and each artifact is
    /// stored under its own path.
    pub closed spec fn inv(self) -> bool {
        &&& forall|i: int, j: int|
            0 <= i < j < self.store@.len() ==> self.store@[i].0@ != self.store@[j].0@
        &&& forall|i: int| 0 <= i < self.store@.len() ==> self.store@[i].1@ == #[trigger] self.store@[i].0@
    }

    /// Builds a store over `root` from the artifact paths a directory walk
    /// found.  A path that occurs twice is kept once.
    pub fn load(root: StoreRoot, paths: Vec<ArtifactPath>) -> (r: FileStoreImpl)
        ensures
            r.inv(),
            r.root_view() == root@,
            forall|i: int| 0 <= i < paths@.len() ==> r.contains_path(#[trigger] paths@[i]@),
            forall|p: Seq<u8>|
                r.contains_path(p) ==> exists|i: int| 0 <= i < paths@.len() && #[trigger] paths@[i]@ == p,
    {
        let n = paths.len();
        let mut s = FileStoreImpl { root, store: Vec::new() };
        assert(s.paths() =~= Seq::<Seq<u8>>::empty());
        let mut k: usize = 0;
        while k < n
            invariant
                0 <= k <= n,
                n == paths@.len(),
                s.inv(),
                s.root_view() == root@,
                forall|i: int| 0 <= i < k ==> s.contains_path(#[trigger] paths@[i]@),
                forall|p: Seq<u8>|
                    s.contains_path(p) ==> exists|i: int|
                        0 <= i < k && #[trigger] paths@[i]@ == p,
            decreases n - k,
        {
            let ghost s_prev = s;
            let p = &paths[k];
            let res = s.load_from_path(p);
            proof {
                let pk = paths@[k as int]@;
                assert(s.contains_path(pk)) by {
                    if s.paths() == s_prev.paths().push(pk) {
                        assert(s.paths()[s.paths().len() - 1] == pk);
                    }
                }
                assert forall|i: int| 0 <= i < k + 1 implies s.contains_path(
                    #[trigger] paths@[i]@,
                ) by {
                    if i < k {
                        let w = choose|w: int|
                            0 <= w < s_prev.paths().len() && s_prev.paths()[w] == paths@[i]@;
                        assert(s.paths()[w] == paths@[i]@);
                    }
                }
                assert forall|p2: Seq<u8>| s.contains_path(p2) implies exists|i: int|
                    0 <= i < k + 1 && #[trigger] paths@[i]@ == p2 by {
                    let w = choose|w: int|
                        0 <= w < s.paths().len() && s.paths()[w] == p2;
                    if w < s_prev.paths().len() {
                        assert(s_prev.paths()[w] == p2);
                        assert(s_prev.contains_path(p2));
                        let i = choose|i: int| 0 <= i < k && #[trigger] paths@[i]@ == p2;
                        assert(paths@[i]@ == p2);
                    } else {
                        assert(paths@[k as int]@ == p2);
                    }
                }
            }
            k = k + 1;
        }
        s
    }

    /// The store's root.
    pub fn root_path(&self) -> (r: &StoreRoot)
        ensures
            r@ == self.root_view(),
    {
        &self.root
    }

    /// The index at which `path` is stored, if any.
    fn find_index(&self, path: &ArtifactPath) -> (r: Option<usize>)
        ensures
            match r {
                Some(i) => i < self.store@.len() && self.store@[i as int].0@ == path@,
                None => !self.contains_path(path@),
            },
    {
        let n = self.store.len();
        let mut i: usize = 0;
        while i < n
            invariant
                0 <= i <= n,
                n == self.store@.len(),
                forall|j: int| 0 <= j < i ==> self.store@[j].0@ != path@,
            decreases n - i,
        {
            let e = &self.store[i];
            if e.0.same_path(path) {
                return Some(i);
            }
            i = i + 1;
        }
        proof {
            if self.contains_path(path@) {
                let j = choose|j: int| 0 <= j < self.paths().len() && self.paths()[j] == path@;
                assert(self.store@[j].0@ == path@);
            }
        }
        None
    }

    /// The artifact stored under `path`, or nothing.
    pub fn get(&self, path: &ArtifactPath) -> (r: Option<&Artifact>)
        requires
            self.inv(),
        ensures
            match r {
                Some(a) => self.contains_path(path@) && a@ == path@,
                None => !self.contains_path(path@),
            },
    {
        match self.find_index(path) {
            Some(i) => {
                let e = &self.store[i];
                proof {
                    assert(self.paths()[i as int] == path@);
                }
                Some(&e.1)
            },
            None => None,
        }
    }

    /// Registers the artifact a build produced at `path`.
    ///
    /// Fails, and leaves the store unchanged, exactly when the path is
    /// already present: the store never overwrites silently.
    pub fn load_from_path(&mut self, path: &ArtifactPath) -> (r: Result<Artifact, StoreError>)
        requires
            old(self).inv(),
        ensures
            final(self).inv(),
            final(self).root_view() == old(self).root_view(),
            match r {
                Ok(a) => {
                    &&& !old(self).contains_path(path@)
                    &&& a@ == path@
                    &&& final(self).paths() == old(self).paths().push(path@)
                },
                Err(_) => {
                    &&& old(self).contains_path(path@)
                    &&& final(self).paths() == old(self).paths()
                },
            },
    {
        match self.find_index(path) {
            Some(i) => {
                proof {
                    assert(self.paths()[i as int] == path@);
                }
                Err(StoreError::Conflict)
            },
            None => {
                let a = Artifact::new(path.clone());
                let entry_path = path.clone();
                self.store.push((entry_path, a));
                let out = Artifact::new(path.clone());
                proof {
                    assert(self.paths() =~= old(self).paths().push(path@));
                    let m = self.store@.len() - 1;
                    assert forall|i: int, j: int|
                        0 <= i < j < self.store@.len() implies self.store@[i].0@
                        != self.store@[j].0@ by {
                        if j == m {
                            assert(old(self).paths()[i] == old(self).store@[i].0@);
                            if self.store@[i].0@ == path@ {
                                assert(old(self).paths().contains(path@));
                            }
                        }
                    }
                    assert forall|i: int| 0 <= i < self.store@.len() implies self.store@[i].1@
                        == #[trigger] self.store@[i].0@ by {}
                }
                Ok(out)
            },
        }
    }
}

/// The store the orchestrator fills during a submission.
#[derive(Debug)]
pub struct StagingStore {
    inner: FileStoreImpl,
}

/// The long-lived store that staged artifacts are promoted into.
#[derive(Debug)]
pub struct ReleaseStore {
    inner: FileStoreImpl,
}

impl StagingStore {
    /// The staged artifact paths, in insertion order.
    pub closed spec fn paths(self) -> Seq<Seq<u8>> {
        self.inner.paths()
    }

    /// The store is well formed.
    pub closed spec fn inv(self) -> bool {
        self.inner.inv()
    }

    /// Loads the staging store from the paths a directory walk found.
    pub fn load(root: StoreRoot, paths: Vec<ArtifactPath>) -> (r: StagingStore)
        ensures
            r.inv(),
            forall|i: int| 0 <= i < paths@.len() ==> r.paths().contains(#[trigger] paths@[i]@),
    {
        StagingStore { inner: FileStoreImpl::load(root, paths) }
    }

    /// The underlying store.
    pub fn inner(&self) -> (r: &FileStoreImpl)
        ensures
            r.paths() == self.paths(),
            r.inv() == self.inv(),
    {
        &self.inner
    }

    /// Registers an artifact a job produced; never overwrites.
    pub fn load_from_path(&mut self, path: &ArtifactPath) -> (r: Result<Artifact, StoreError>)
        requires
            old(self).inv(),
        ensures
            final(self).inv(),
            match r {
                Ok(a) => {
                    &&& !old(self).paths().contains(path@)
                    &&& a@ == path@
                    &&& final(self).paths() == old(self).paths().push(path@)
                },
                Err(_) => {
                    &&& old(self).paths().contains(path@)
                    &&& final(self).paths() == old(self).paths()
                },
            },
    {
        self.inner.load_from_path(path)
    }
}

impl ReleaseStore {
    /// The released artifact paths, in insertion order.
    pub closed spec fn paths(self) -> Seq<Seq<u8>> {
        self.inner.paths()
    }

    /// The store is well formed.
    pub closed spec fn inv(self) -> bool {
        self.inner.inv()
    }

    /// Loads the release store from the paths a directory walk found.
    pub fn load(root: StoreRoot, paths: Vec<ArtifactPath>) -> (r: ReleaseStore)
        ensures
            r.inv(),
            forall|i: int| 0 <= i < paths@.len() ==> r.paths().contains(#[trigger] paths@[i]@),
    {
        ReleaseStore { inner: FileStoreImpl::load(root, paths) }
    }

    /// The underlying store.
    pub fn inner(&self) -> (r: &FileStoreImpl)
        ensures
            r.paths() == self.paths(),
            r.inv() == self.inv(),
    {
        &self.inner
    }
}

} // verus!
