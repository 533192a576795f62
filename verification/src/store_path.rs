//! Typed, validated paths under a store directory.
//!
//! A `StoreRoot` wraps an absolute directory path; an `ArtifactPath` is a
//! relative path that can be joined to a root to address one artifact file.
//! Paths are handled as raw bytes, since file names need not be UTF-8.
//! Whether the root actually exists on disk is checked by the caller that
//! performs I/O; the shape of the path is validated here.

use vstd::prelude::*;

verus! {

/// ASCII `/`, the path separator.
pub const SLASH: u8 = 47;

/// ASCII `.`.
pub const DOT: u8 = 46;

/// Why a byte string was refused as a path.
#[derive(Clone, Copy, Debug, PartialEq, Eq, Structural)]
pub enum PathError {
    /// The byte string was empty.
    Empty,
    /// A relative path began with `/`, or an absolute path did not.
    WrongAnchor,
    /// The path ended in `/` or held an empty component (`//`).
    EmptyComponent,
    /// The path held a `.` or `..` component.
    DotComponent,
}

/// Is there a `.` component beginning at index `i`?
pub open spec fn dot_component_at(s: Seq<u8>, i: int) -> bool {
    &&& 0 <= i < s.len()
    &&& s[i] == DOT
    &&& (i == 0 || s[i - 1] == SLASH)
    &&& (i + 1 == s.len() || s[i + 1] == SLASH)
}

/// Is there a `..` component beginning at index `i`?
pub open spec fn dotdot_component_at(s: Seq<u8>, i: int) -> bool {
    &&& 0 <= i
    &&& i + 1 < s.len()
    &&& s[i] == DOT
    &&& s[i + 1] == DOT
    &&& (i == 0 || s[i - 1] == SLASH)
    &&& (i + 2 == s.len() || s[i + 2] == SLASH)
}

/// A valid relative path: non-empty, neither starting nor ending in `/`,
/// without empty, `.` or `..` components.
pub open spec fn is_valid_rel_path(s: Seq<u8>) -> bool {
    &&& s.len() > 0
    &&& s[0] != SLASH
    &&& s[s.len() - 1] != SLASH
    &&& forall|i: int| 0 <= i < s.len() - 1 ==> !(#[trigger] s[i] == SLASH && s[i + 1] == SLASH)
    &&& forall|i: int| !#[trigger] dot_component_at(s, i)
    &&& forall|i: int| !#[trigger] dotdot_component_at(s, i)
}

/// A valid root path: `/` alone, or `/` followed by a valid relative path.
pub open spec fn is_valid_root_path(s: Seq<u8>) -> bool {
    &&& s.len() > 0
    &&& s[0] == SLASH
    &&& (s.len() == 1 || is_valid_rel_path(s.skip(1)))
}

/// The full path that addresses `rel` under the root `root`.
pub open spec fn joined(root: Seq<u8>, rel: Seq<u8>) -> Seq<u8> {
    if root.len() == 1 {
        root + rel
    } else {
        root + seq![SLASH] + rel
    }
}

/// A relative path addressing one artifact under a store root.
#[derive(Debug)]
pub struct ArtifactPath {
    bytes: Vec<u8>,
}

/// An absolute path to a store directory.
#[derive(Debug)]
pub struct StoreRoot {
    bytes: Vec<u8>,
}

impl Clone for ArtifactPath {
    /// Clones the path, byte for byte.
    fn clone(&self) -> (r: Self)
        ensures
            r@ == self@,
    {
        proof {
            use_type_invariant(self);
        }
        let mut bytes: Vec<u8> = Vec::new();
        append_slice(&mut bytes, self.bytes.as_slice());
        proof {
            assert(bytes@ =~= self.bytes@);
        }
        ArtifactPath { bytes }
    }
}

impl Clone for StoreRoot {
    /// Clones the root, byte for byte.
    fn clone(&self) -> (r: Self)
        ensures
            r@ == self@,
    {
        proof {
            use_type_invariant(self);
        }
        let mut bytes: Vec<u8> = Vec::new();
        append_slice(&mut bytes, self.bytes.as_slice());
        proof {
            assert(bytes@ =~= self.bytes@);
        }
        StoreRoot { bytes }
    }
}

impl View for ArtifactPath {
    type V = Seq<u8>;

    closed spec fn view(&self) -> Seq<u8> {
        self.bytes@
    }
}

impl View for StoreRoot {
    type V = Seq<u8>;

    closed spec fn view(&self) -> Seq<u8> {
        self.bytes@
    }
}

/// Scans `s` for empty, `.` and `..` components.
///
/// Returns no error exactly when `s` neither ends in `/` nor holds an empty,
/// `.` or `..` component; the start of `s` is judged by the caller.
fn scan_components(s: &[u8]) -> (r: Option<PathError>)
    requires
        s@.len() > 0,
        s@[0] != SLASH,
    ensures
        match r {
            None => is_valid_rel_path(s@),
            Some(_) => !is_valid_rel_path(s@),
        },
{
    let n = s.len();
    if s[n - 1] == SLASH {
        return Some(PathError::EmptyComponent);
    }
    let mut i: usize = 0;
    while i < n
        invariant
            0 <= i <= n,
            n == s@.len() > 0,
            s@[0] != SLASH,
            s@[n - 1] != SLASH,
            forall|j: int|
                0 <= j < i && j < n - 1 ==> !(#[trigger] s@[j] == SLASH && s@[j + 1] == SLASH),
            forall|j: int| j < i ==> !#[trigger] dot_component_at(s@, j),
            forall|j: int| j < i ==> !#[trigger] dotdot_component_at(s@, j),
        decreases n - i,
    {
        if i + 1 < n && s[i] == SLASH && s[i + 1] == SLASH {
            return Some(PathError::EmptyComponent);
        }
        if s[i] == DOT && (i == 0 || s[i - 1] == SLASH) {
            if i + 1 == n || s[i + 1] == SLASH {
                assert(dot_component_at(s@, i as int));
                return Some(PathError::DotComponent);
            }
            if s[i + 1] == DOT && (i + 2 == n || s[i + 2] == SLASH) {
                assert(dotdot_component_at(s@, i as int));
                return Some(PathError::DotComponent);
            }
        }
        i = i + 1;
    }
    proof {
        assert forall|j: int| !#[trigger] dot_component_at(s@, j) by {
            if 0 <= j < n {
            }
        }
        assert forall|j: int| !#[trigger] dotdot_component_at(s@, j) by {
            if 0 <= j + 1 < n {
            }
        }
    }
    None
}

impl ArtifactPath {
    /// Every value of the type is a valid relative path.
    #[verifier::type_invariant]
    closed spec fn wf(self) -> bool {
        is_valid_rel_path(self@)
    }

    /// Accepts `bytes` as a relative artifact path when it is non-empty,
    /// anchored nowhere, and free of empty, `.` and `..` components.
    pub fn new(bytes: Vec<u8>) -> (r: Result<ArtifactPath, PathError>)
        ensures
            match r {
                Ok(p) => p@ == bytes@ && is_valid_rel_path(bytes@),
                Err(_) => !is_valid_rel_path(bytes@),
            },
    {
        if bytes.len() == 0 {
            return Err(PathError::Empty);
        }
        if bytes[0] == SLASH {
            return Err(PathError::WrongAnchor);
        }
        match scan_components(bytes.as_slice()) {
            None => Ok(ArtifactPath { bytes }),
            Some(e) => Err(e),
        }
    }

    /// The path's bytes, relative to a store root.
    pub fn as_bytes(&self) -> (r: &Vec<u8>)
        ensures
            r@ == self@,
    {
        &self.bytes
    }

    /// Byte-wise equality of two artifact paths.
    pub fn same_path(&self, other: &ArtifactPath) -> (r: bool)
        ensures
            r == (self@ == other@),
    {
        let r = self.bytes == other.bytes;
        proof {
            if r {
                assert(self.bytes@ =~= other.bytes@);
            } else {
                if self.bytes@ == other.bytes@ {
                    assert(forall|i: int|
                        0 <= i < self.bytes@.len() ==> self.bytes@[i] == other.bytes@[i]);
                    assert(false);
                }
            }
        }
        r
    }
}

impl StoreRoot {
    /// Every value of the type is a valid absolute root path.
    #[verifier::type_invariant]
    closed spec fn wf(self) -> bool {
        is_valid_root_path(self@)
    }

    /// Accepts `bytes` as an absolute store root: `/`, or `/` followed by a
    /// valid relative path.
    pub fn new(bytes: Vec<u8>) -> (r: Result<StoreRoot, PathError>)
        ensures
            match r {
                Ok(p) => p@ == bytes@ && is_valid_root_path(bytes@),
                Err(_) => !is_valid_root_path(bytes@),
            },
    {
        if bytes.len() == 0 {
            return Err(PathError::Empty);
        }
        if bytes[0] != SLASH {
            return Err(PathError::WrongAnchor);
        }
        if bytes.len() == 1 {
            return Ok(StoreRoot { bytes });
        }
        let rest = slice_drop_first(bytes.as_slice());
        if rest[0] == SLASH {
            return Err(PathError::EmptyComponent);
        }
        match scan_components(rest) {
            None => Ok(StoreRoot { bytes }),
            Some(e) => Err(e),
        }
    }

    /// The root's bytes, an absolute path.
    pub fn as_bytes(&self) -> (r: &Vec<u8>)
        ensures
            r@ == self@,
    {
        &self.bytes
    }

    /// The full path of `rel` under this root.
    pub fn join(&self, rel: &ArtifactPath) -> (r: Vec<u8>)
        ensures
            r@ == joined(self@, rel@),
    {
        let mut out: Vec<u8> = Vec::new();
        append_slice(&mut out, self.bytes.as_slice());
        if self.bytes.len() != 1 {
            out.push(SLASH);
        }
        append_slice(&mut out, rel.as_bytes().as_slice());
        proof {
            if self@.len() == 1 {
                assert(out@ =~= joined(self@, rel@));
            } else {
                assert(out@ =~= joined(self@, rel@));
            }
        }
        out
    }

    /// Strips this root off a full path.
    ///
    /// Succeeds exactly when `full` is the join of this root with some valid
    /// relative path, and returns that path.
    pub fn strip(&self, full: &[u8]) -> (r: Result<ArtifactPath, PathError>)
        ensures
            match r {
                Ok(p) => full@ == joined(self@, p@) && is_valid_rel_path(p@),
                Err(_) => forall|rel: Seq<u8>|
                    is_valid_rel_path(rel) ==> full@ != joined(self@, rel),
            },
    {
        let rlen = self.bytes.len();
        let skip: usize = if rlen == 1 {
            1
        } else {
            if full.len() <= rlen {
                proof {
                    assert forall|rel: Seq<u8>|
                        is_valid_rel_path(rel) implies full@ != joined(self@, rel) by {}
                }
                return Err(PathError::WrongAnchor);
            }
            if full[rlen] != SLASH {
                proof {
                    assert forall|rel: Seq<u8>|
                        is_valid_rel_path(rel) implies full@ != joined(self@, rel) by {
                        if full@ == joined(self@, rel) {
                            assert(full@[rlen as int] == SLASH);
                        }
                    }
                }
                return Err(PathError::WrongAnchor);
            }
            rlen + 1
        };
        if full.len() <= skip {
            proof {
                assert forall|rel: Seq<u8>| is_valid_rel_path(rel) implies full@ != joined(
                    self@,
                    rel,
                ) by {
                    if full@ == joined(self@, rel) {
                        assert(full@.len() > skip);
                    }
                }
            }
            return Err(PathError::Empty);
        }
        let mut i: usize = 0;
        while i < rlen
            invariant
                0 <= i <= rlen,
                rlen == self@.len(),
                full@.len() > skip as int >= rlen,
                forall|j: int| 0 <= j < i ==> full@[j] == self@[j],
            decreases rlen - i,
        {
            if full[i] != self.bytes[i] {
                proof {
                    assert forall|rel: Seq<u8>| is_valid_rel_path(rel) implies full@ != joined(
                        self@,
                        rel,
                    ) by {
                        if full@ == joined(self@, rel) {
                            assert(full@[i as int] == self@[i as int]);
                        }
                    }
                }
                return Err(PathError::WrongAnchor);
            }
            i = i + 1;
        }
        let rest = slice_skip(full, skip);
        let mut rest_vec: Vec<u8> = Vec::new();
        append_slice(&mut rest_vec, rest);
        match ArtifactPath::new(rest_vec) {
            Ok(p) => {
                proof {
                    assert(full@ =~= joined(self@, p@));
                }
                Ok(p)
            },
            Err(e) => {
                proof {
                    assert forall|rel: Seq<u8>| is_valid_rel_path(rel) implies full@ != joined(
                        self@,
                        rel,
                    ) by {
                        if full@ == joined(self@, rel) {
                            assert(rel =~= full@.skip(skip as int));
                        }
                    }
                }
                Err(e)
            },
        }
    }
}

/// Appends all of `src` to `dst`.
pub fn append_slice(dst: &mut Vec<u8>, src: &[u8])
    ensures
        final(dst)@ == old(dst)@ + src@,
{
    let mut i: usize = 0;
    while i < src.len()
        invariant
            0 <= i <= src@.len(),
            dst@ == old(dst)@ + src@.subrange(0, i as int),
        decreases src@.len() - i,
    {
        dst.push(src[i]);
        proof {
            assert(old(dst)@ + src@.subrange(0, i as int) + seq![src@[i as int]] =~= old(dst)@
                + src@.subrange(0, i + 1));
        }
        i = i + 1;
    }
    proof {
        assert(src@.subrange(0, src@.len() as int) =~= src@);
    }
}

/// A fresh vector holding the bytes of `src`.
pub fn vec_of_slice(src: &[u8]) -> (r: Vec<u8>)
    ensures
        r@ == src@,
{
    let mut v: Vec<u8> = Vec::new();
    append_slice(&mut v, src);
    proof {
        assert(v@ =~= src@);
    }
    v
}

/// The slice without its first byte.
fn slice_drop_first(s: &[u8]) -> (r: &[u8])
    requires
        s@.len() > 0,
    ensures
        r@ == s@.skip(1),
{
    slice_skip(s, 1)
}

/// The slice without its first `n` bytes.
fn slice_skip(s: &[u8], n: usize) -> (r: &[u8])
    requires
        n <= s@.len(),
    ensures
        r@ == s@.skip(n as int),
{
    let r = vstd::slice::slice_subrange(s, n, s.len());
    proof {
        assert(r@ =~= s@.skip(n as int));
    }
    r
}

} // verus!
