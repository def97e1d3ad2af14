//! The content digest. Objects are identified by the SHA-512 digest of their
//! canonical encoding; the digest itself comes from the `sha2` crate and is
//! only named here, never restated.

use vstd::prelude::*;

verus! {

/// A running SHA-512 hasher. Verus sees nothing of the inner state; the
/// wrappers below describe each operation over `hasher_input`.
#[verifier::external_body]
pub struct Sha512Hasher {
    inner: sha2::Sha512,
}

/// The SHA-512 digest (64 bytes) of a byte sequence. The digest is a function
/// of the input bytes alone; nothing more is assumed of it.
pub uninterp spec fn sha512_of(data: Seq<u8>) -> Seq<u8>;

/// The bytes a running hasher has consumed so far.
pub uninterp spec fn hasher_input(h: Sha512Hasher) -> Seq<u8>;

impl Sha512Hasher {
    /// Relies on sha2::Sha512::new (Digest::new): a fresh hasher that has
    /// consumed no input.
    #[verifier::external_body]
    pub fn new() -> (h: Self)
        ensures
            hasher_input(h) == Seq::<u8>::empty(),
    {
        Sha512Hasher { inner: <sha2::Sha512 as sha2::Digest>::new() }
    }

    /// Relies on sha2::Digest::update: appends the given bytes to the
    /// hasher's input.
    #[verifier::external_body]
    pub fn update(&mut self, data: &[u8])
        ensures
            hasher_input(*final(self)) == hasher_input(*old(self)) + data@,
    {
        sha2::Digest::update(&mut self.inner, data);
    }

    /// Relies on sha2::Digest::finalize: returns the SHA-512 digest of all
    /// input consumed so far, which is always 64 bytes long.
    #[verifier::external_body]
    pub fn finish(self) -> (r: Vec<u8>)
        ensures
            r@ == sha512_of(hasher_input(self)),
            r@.len() == 64,
    {
        sha2::Digest::finalize(self.inner).to_vec()
    }
}

} // verus!
