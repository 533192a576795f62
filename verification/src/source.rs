//! Sources of a package and their hash verification.
//!
//! A package declares where each of its sources comes from and which digest
//! its content must have.  A cached source file whose content hashes to a
//! different value than declared is never fed to a build: verification
//! streams the content through the declared algorithm and compares.  Reading
//! the file is I/O and happens outside; verification here takes the bytes.

use vstd::prelude::*;
use vstd::seq_lib::*;
use crate::hashes::Sha1Ctx;
use crate::hashes::Sha256Ctx;
use crate::hashes::Sha512Ctx;
use crate::hashes::sha1_fed;
use crate::hashes::sha256_fed;
use crate::hashes::sha512_fed;
use crate::hashes::sha1_hex;
use crate::hashes::sha256_hex;
use crate::hashes::sha512_hex;

verus! {

/// `url::Url` carried opaquely: only its crate reads it.
#[verifier::external_type_specification]
#[verifier::external_body]
pub struct ExUrl(url::Url);

/// The size of one chunk fed to the hasher, so that arbitrarily large
/// sources are processed with bounded memory.
pub const HASH_CHUNK: usize = 1024;

/// The hash algorithms a source may declare.
#[derive(Clone, Copy, Debug, PartialEq, Eq, Structural)]
pub enum HashType {
    Sha1,
    Sha256,
    Sha512,
}

/// The lower-case hex digest of `bytes` under algorithm `t`.
pub open spec fn hash_hex(t: HashType, bytes: Seq<u8>) -> Seq<char> {
    match t {
        HashType::Sha1 => sha1_hex(bytes),
        HashType::Sha256 => sha256_hex(bytes),
        HashType::Sha512 => sha512_hex(bytes),
    }
}

/// The length of a hex digest under algorithm `t`.
pub open spec fn hex_len(t: HashType) -> nat {
    match t {
        HashType::Sha1 => 40,
        HashType::Sha256 => 64,
        HashType::Sha512 => 128,
    }
}

/// A declared hash value, as lower-case hex text.
#[derive(Debug)]
pub struct HashValue(pub String);

impl View for HashValue {
    type V = Seq<char>;

    open spec fn view(&self) -> Seq<char> {
        self.0@
    }
}

impl Clone for HashValue {
    /// Clones the value, character for character.
    fn clone(&self) -> (r: Self)
        ensures
            r@ == self@,
    {
        HashValue(self.0.clone())
    }
}

impl PartialEq for HashValue {
    /// Two hash values are equal when their hex texts are.
    fn eq(&self, other: &HashValue) -> (r: bool) {
        self.0 == other.0
    }
}

impl vstd::std_specs::cmp::PartialEqSpecImpl for HashValue {
    open spec fn obeys_eq_spec() -> bool {
        true
    }

    open spec fn eq_spec(&self, other: &HashValue) -> bool {
        self@ == other@
    }
}

impl From<String> for HashValue {
    /// Wraps the hex text.
    fn from(s: String) -> (r: HashValue) {
        HashValue(s)
    }
}

impl vstd::std_specs::convert::FromSpecImpl<String> for HashValue {
    open spec fn obeys_from_spec() -> bool {
        true
    }

    open spec fn from_spec(s: String) -> HashValue {
        HashValue(s)
    }
}

/// A streaming hasher over one declared algorithm.
pub enum Hasher {
    Sha1(Sha1Ctx),
    Sha256(Sha256Ctx),
    Sha512(Sha512Ctx),
}

impl Hasher {
    /// The algorithm this hasher computes.
    pub closed spec fn algo(self) -> HashType {
        match self {
            Hasher::Sha1(_) => HashType::Sha1,
            Hasher::Sha256(_) => HashType::Sha256,
            Hasher::Sha512(_) => HashType::Sha512,
        }
    }

    /// The bytes fed so far.
    pub closed spec fn fed(self) -> Seq<u8> {
        match self {
            Hasher::Sha1(h) => sha1_fed(h),
            Hasher::Sha256(h) => sha256_fed(h),
            Hasher::Sha512(h) => sha512_fed(h),
        }
    }

    /// A fresh hasher for algorithm `t`.
    pub fn new(t: &HashType) -> (r: Hasher)
        ensures
            r.algo() == *t,
            r.fed() == Seq::<u8>::empty(),
    {
        match t {
            HashType::Sha1 => Hasher::Sha1(Sha1Ctx::new()),
            HashType::Sha256 => Hasher::Sha256(Sha256Ctx::new()),
            HashType::Sha512 => Hasher::Sha512(Sha512Ctx::new()),
        }
    }

    /// Feeds one chunk; the digest depends only on the concatenation of all
    /// chunks fed, never on how they were cut.
    pub fn update(&mut self, chunk: &[u8])
        ensures
            final(self).algo() == old(self).algo(),
            final(self).fed() == old(self).fed() + chunk@,
    {
        match self {
            Hasher::Sha1(h) => h.update(chunk),
            Hasher::Sha256(h) => h.update(chunk),
            Hasher::Sha512(h) => h.update(chunk),
        }
    }

    /// The hex digest of everything fed.
    pub fn finish(self) -> (r: HashValue)
        ensures
            r@ == hash_hex(self.algo(), self.fed()),
            r@.len() == hex_len(self.algo()),
    {
        match self {
            Hasher::Sha1(h) => HashValue(h.finalize_hex()),
            Hasher::Sha256(h) => HashValue(h.finalize_hex()),
            Hasher::Sha512(h) => HashValue(h.finalize_hex()),
        }
    }
}

impl HashType {
    /// The algorithm's lower-case name.
    pub open spec fn name_spec(self) -> Seq<char> {
        match self {
            HashType::Sha1 => "sha1"@,
            HashType::Sha256 => "sha256"@,
            HashType::Sha512 => "sha512"@,
        }
    }

    /// The algorithm's lower-case name.
    pub fn name(&self) -> (r: &'static str)
        ensures
            r@ == self.name_spec(),
    {
        match self {
            HashType::Sha1 => "sha1",
            HashType::Sha256 => "sha256",
            HashType::Sha512 => "sha512",
        }
    }

    /// Hashes `data` the way the streaming reader does: fed to the hasher in
    /// chunks of `HASH_CHUNK` bytes.
    pub fn hash_bytes(&self, data: &[u8]) -> (r: HashValue)
        ensures
            r@ == hash_hex(*self, data@),
            r@.len() == hex_len(*self),
    {
        let mut h = Hasher::new(self);
        let n = data.len();
        let mut i: usize = 0;
        while i < n
            invariant
                0 <= i <= n,
                n == data@.len(),
                h.algo() == *self,
                h.fed() == data@.subrange(0, i as int),
            decreases n - i,
        {
            let j = if n - i < HASH_CHUNK {
                n
            } else {
                i + HASH_CHUNK
            };
            let chunk = vstd::slice::slice_subrange(data, i, j);
            h.update(chunk);
            proof {
                assert(data@.subrange(0, i as int) + data@.subrange(i as int, j as int) =~= data@
                    .subrange(0, j as int));
            }
            i = j;
        }
        proof {
            assert(data@.subrange(0, n as int) =~= data@);
        }
        h.finish()
    }

    /// Hashes a buffer already cut into chunks, feeding them in order.
    ///
    /// However the buffer was cut, the digest is the digest of the
    /// concatenation: the contract speaks only of the flattened bytes.
    pub fn hash_chunks(&self, chunks: &Vec<Vec<u8>>) -> (r: HashValue)
        ensures
            r@ == hash_hex(*self, chunks.deep_view().flatten()),
            r@.len() == hex_len(*self),
    {
        let mut h = Hasher::new(self);
        let n = chunks.len();
        let mut i: usize = 0;
        proof {
            assert(chunks.deep_view().take(0).flatten() =~= Seq::<u8>::empty());
        }
        while i < n
            invariant
                0 <= i <= n,
                n == chunks@.len(),
                chunks.deep_view().len() == n,
                h.algo() == *self,
                h.fed() == chunks.deep_view().take(i as int).flatten(),
                forall|k: int| 0 <= k < n ==> chunks.deep_view()[k] == #[trigger] chunks@[k]@,
            decreases n - i,
        {
            h.update(chunks[i].as_slice());
            proof {
                let dv = chunks.deep_view();
                dv.lemma_take_succ_push(i as int);
                broadcast use Seq::lemma_flatten_push;

                assert(dv.take(i as int).push(dv[i as int]).flatten() =~= dv.take(i as int).flatten()
                    + dv[i as int]);
                assert(h.fed() == dv.take(i + 1).flatten());
            }
            i = i + 1;
        }
        proof {
            assert(chunks.deep_view().take(n as int) =~= chunks.deep_view());
        }
        h.finish()
    }
}

/// However a buffer is cut into chunks, hashing the chunks in order gives
/// the digest of the buffer hashed in one shot.
pub proof fn lemma_streaming_one_shot(t: HashType, chunks: Seq<Seq<u8>>, whole: Seq<u8>)
    requires
        chunks.flatten() == whole,
    ensures
        hash_hex(t, chunks.flatten()) == hash_hex(t, whole),
{
}


/// A mismatching source, found while verifying a submission's sources.
#[derive(Debug)]
pub struct SourceVerificationError {
    /// Which source mismatched.
    pub source: usize,
    /// The declared and the computed digest.
    pub mismatch: HashMismatch,
}

/// Verifies every source a submission consumes against its declared hash.
///
/// Succeeds exactly when verification is disabled or every content hashes
/// to its declared value; otherwise the first mismatching source is
/// reported and the submission must abort before any container starts.
pub fn verify_all(
    declared: &Vec<SourceHash>,
    contents: &Vec<Vec<u8>>,
    enabled: bool,
) -> (r: Result<(), SourceVerificationError>)
    requires
        declared@.len() == contents@.len(),
    ensures
        match r {
            Ok(()) => !enabled || forall|i: int|
                0 <= i < declared@.len() ==> hash_hex(
                    (#[trigger] declared@[i]).hashtype,
                    contents@[i]@,
                ) == declared@[i].value@,
            Err(e) => {
                &&& enabled
                &&& e.source < declared@.len()
                &&& hash_hex(declared@[e.source as int].hashtype, contents@[e.source as int]@)
                    != declared@[e.source as int].value@
                &&& e.mismatch.expected@ == declared@[e.source as int].value@
                &&& e.mismatch.got@ == hash_hex(
                    declared@[e.source as int].hashtype,
                    contents@[e.source as int]@,
                )
                &&& forall|i: int|
                    0 <= i < e.source ==> hash_hex(
                        (#[trigger] declared@[i]).hashtype,
                        contents@[i]@,
                    ) == declared@[i].value@
            },
        },
{
    if !enabled {
        return Ok(());
    }
    let n = declared.len();
    let mut i: usize = 0;
    while i < n
        invariant
            enabled,
            0 <= i <= n,
            n == declared@.len(),
            declared@.len() == contents@.len(),
            forall|k: int|
                0 <= k < i ==> hash_hex((#[trigger] declared@[k]).hashtype, contents@[k]@)
                    == declared@[k].value@,
        decreases n - i,
    {
        match declared[i].matches_hash_of(contents[i].as_slice()) {
            Ok(()) => {},
            Err(mismatch) => {
                return Err(SourceVerificationError { source: i, mismatch });
            },
        }
        i = i + 1;
    }
    Ok(())
}

/// The declared digest of a source: an algorithm and a hex value.
#[derive(Debug)]
pub struct SourceHash {
    pub hashtype: HashType,
    pub value: HashValue,
}

/// The declared and the computed digest of a mismatching source.
#[derive(Debug)]
pub struct HashMismatch {
    pub expected: HashValue,
    pub got: HashValue,
}

impl SourceHash {
    /// A declared hash.
    pub fn new(hashtype: HashType, value: HashValue) -> (r: SourceHash)
        ensures
            r.hashtype == hashtype,
            r.value@ == value@,
    {
        SourceHash { hashtype, value }
    }

    /// The declared algorithm.
    pub fn hashtype(&self) -> (r: &HashType)
        ensures
            *r == self.hashtype,
    {
        &self.hashtype
    }

    /// The declared hex value.
    pub fn value(&self) -> (r: &HashValue)
        ensures
            r@ == self.value@,
    {
        &self.value
    }

    /// Verifies that `data` hashes to the declared value.
    ///
    /// Succeeds exactly when the digest of `data` under the declared
    /// algorithm equals the declared value; on a mismatch both digests are
    /// reported and the source must not be fed to a build.
    pub fn matches_hash_of(&self, data: &[u8]) -> (r: Result<(), HashMismatch>)
        ensures
            match r {
                Ok(()) => hash_hex(self.hashtype, data@) == self.value@,
                Err(e) => {
                    &&& hash_hex(self.hashtype, data@) != self.value@
                    &&& e.expected@ == self.value@
                    &&& e.got@ == hash_hex(self.hashtype, data@)
                },
            },
    {
        let h = self.hashtype.hash_bytes(data);
        if h == self.value {
            Ok(())
        } else {
            Err(HashMismatch { expected: self.value.clone(), got: h })
        }
    }
}

impl Clone for SourceHash {
    /// Clones the declared hash.
    fn clone(&self) -> (r: Self)
        ensures
            r.hashtype == self.hashtype,
            r.value@ == self.value@,
    {
        SourceHash { hashtype: self.hashtype, value: self.value.clone() }
    }
}

/// One source of a package: where it comes from, which digest its content
/// must have, and whether it is downloaded by hand.
#[derive(Debug)]
pub struct Source {
    pub url: url::Url,
    pub hash: SourceHash,
    pub download_manually: bool,
}

impl Source {
    /// A source fetched automatically.
    pub fn new(url: url::Url, hash: SourceHash) -> (r: Source)
        ensures
            r.url == url,
            r.hash.hashtype == hash.hashtype,
            r.hash.value@ == hash.value@,
            r.download_manually == false,
    {
        Source { url, hash, download_manually: false }
    }

    /// Where the source comes from.
    pub fn url(&self) -> (r: &url::Url)
        ensures
            *r == self.url,
    {
        &self.url
    }

    /// The declared hash.
    pub fn hash(&self) -> (r: &SourceHash)
        ensures
            r.hashtype == self.hash.hashtype,
            r.value@ == self.hash.value@,
    {
        &self.hash
    }

    /// Is this source downloaded by hand?
    pub fn download_manually(&self) -> (r: bool)
        ensures
            r == self.download_manually,
    {
        self.download_manually
    }
}

} // verus!
