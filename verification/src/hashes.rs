//! Trusted wrappers around the SHA digest crates.
//!
//! Each context wraps one streaming hasher of the `sha1` or `sha2` crate.
//! The digest of a byte sequence is a pure function of those bytes alone, but
//! stating it would mean transcribing the whole algorithm, so each algorithm's
//! hex digest is only named here; the wrappers state how feeding and
//! finalizing relate to that name.  What a context has been fed so far is
//! likewise named, which is what makes the chunking of the input irrelevant
//! to the result.

use vstd::prelude::*;
use sha1::Digest;

verus! {

/// The lower-case hex SHA-1 digest of `bytes`.
pub uninterp spec fn sha1_hex(bytes: Seq<u8>) -> Seq<char>;

/// The lower-case hex SHA-256 digest of `bytes`.
pub uninterp spec fn sha256_hex(bytes: Seq<u8>) -> Seq<char>;

/// The lower-case hex SHA-512 digest of `bytes`.
pub uninterp spec fn sha512_hex(bytes: Seq<u8>) -> Seq<char>;

/// A streaming SHA-1 context.
#[verifier::external_body]
pub struct Sha1Ctx {
    inner: sha1::Sha1,
}

/// A streaming SHA-256 context.
#[verifier::external_body]
pub struct Sha256Ctx {
    inner: sha2::Sha256,
}

/// A streaming SHA-512 context.
#[verifier::external_body]
pub struct Sha512Ctx {
    inner: sha2::Sha512,
}

/// The bytes fed to a SHA-1 context so far.
pub uninterp spec fn sha1_fed(h: Sha1Ctx) -> Seq<u8>;

/// The bytes fed to a SHA-256 context so far.
pub uninterp spec fn sha256_fed(h: Sha256Ctx) -> Seq<u8>;

/// The bytes fed to a SHA-512 context so far.
pub uninterp spec fn sha512_fed(h: Sha512Ctx) -> Seq<u8>;

impl Sha1Ctx {
    /// Relies on `sha1::Sha1::new` (`Digest::new`): a fresh context has been
    /// fed nothing.
    #[verifier::external_body]
    pub fn new() -> (r: Sha1Ctx)
        ensures
            sha1_fed(r) == Seq::<u8>::empty(),
    {
        Sha1Ctx { inner: sha1::Sha1::new() }
    }

    /// Relies on `sha1::Sha1::update` (`Digest::update`): feeding appends to
    /// the processed input.
    #[verifier::external_body]
    pub fn update(&mut self, chunk: &[u8])
        ensures
            sha1_fed(*final(self)) == sha1_fed(*old(self)) + chunk@,
    {
        self.inner.update(chunk);
    }

    /// Relies on `sha1::Sha1::finalize` (`Digest::finalize`) and the
    /// lower-hex rendering of its 20-byte digest: two hex characters per
    /// byte, a function of the fed bytes alone.
    #[verifier::external_body]
    pub fn finalize_hex(self) -> (r: String)
        ensures
            r@ == sha1_hex(sha1_fed(self)),
            r@.len() == 40,
    {
        format!("{:x}", self.inner.finalize())
    }
}

impl Sha256Ctx {
    /// Relies on `sha2::Sha256::new` (`Digest::new`): a fresh context has
    /// been fed nothing.
    #[verifier::external_body]
    pub fn new() -> (r: Sha256Ctx)
        ensures
            sha256_fed(r) == Seq::<u8>::empty(),
    {
        Sha256Ctx { inner: sha2::Sha256::new() }
    }

    /// Relies on `sha2::Sha256::update` (`Digest::update`): feeding appends
    /// to the processed input.
    #[verifier::external_body]
    pub fn update(&mut self, chunk: &[u8])
        ensures
            sha256_fed(*final(self)) == sha256_fed(*old(self)) + chunk@,
    {
        self.inner.update(chunk);
    }

    /// Relies on `sha2::Sha256::finalize` (`Digest::finalize`) and the
    /// lower-hex rendering of its 32-byte digest: two hex characters per
    /// byte, a function of the fed bytes alone.
    #[verifier::external_body]
    pub fn finalize_hex(self) -> (r: String)
        ensures
            r@ == sha256_hex(sha256_fed(self)),
            r@.len() == 64,
    {
        format!("{:x}", self.inner.finalize())
    }
}

impl Sha512Ctx {
    /// Relies on `sha2::Sha512::new` (`Digest::new`): a fresh context has
    /// been fed nothing.
    #[verifier::external_body]
    pub fn new() -> (r: Sha512Ctx)
        ensures
            sha512_fed(r) == Seq::<u8>::empty(),
    {
        Sha512Ctx { inner: sha2::Sha512::new() }
    }

    /// Relies on `sha2::Sha512::update` (`Digest::update`): feeding appends
    /// to the processed input.
    #[verifier::external_body]
    pub fn update(&mut self, chunk: &[u8])
        ensures
            sha512_fed(*final(self)) == sha512_fed(*old(self)) + chunk@,
    {
        self.inner.update(chunk);
    }

    /// Relies on `sha2::Sha512::finalize` (`Digest::finalize`) and the
    /// lower-hex rendering of its 64-byte digest: two hex characters per
    /// byte, a function of the fed bytes alone.
    #[verifier::external_body]
    pub fn finalize_hex(self) -> (r: String)
        ensures
            r@ == sha512_hex(sha512_fed(self)),
            r@.len() == 128,
    {
        format!("{:x}", self.inner.finalize())
    }
}

} // verus!
