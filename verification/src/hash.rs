use vstd::prelude::*;
use sha2::Digest;

verus! {

/// A streaming SHA-256 accumulator.
///
/// The state is opaque; its contents are named by `absorbed`, the sequence
/// of bytes fed to it so far. The three trusted constructors below are the
/// only way the library touches it.
#[verifier::external_body]
pub struct HashState {
    inner: sha2::Sha256,
}

/// The bytes a streaming hash state has absorbed so far.
pub uninterp spec fn absorbed(h: HashState) -> Seq<u8>;

/// The SHA-256 digest of a byte sequence: a function of the bytes alone.
pub uninterp spec fn sha256_of(data: Seq<u8>) -> Seq<u8>;

impl HashState {
    /// Relies on sha2's `Digest::new`: a fresh state has absorbed nothing.
    #[verifier::external_body]
    pub fn new() -> (h: HashState)
        ensures
            absorbed(h) == Seq::<u8>::empty(),
    {
        HashState { inner: sha2::Sha256::new() }
    }

    /// Relies on sha2's `Digest::update`: the given bytes are absorbed
    /// after those already absorbed.
    #[verifier::external_body]
    pub fn update(&mut self, data: &Vec<u8>)
        ensures
            absorbed(*final(self)) == absorbed(*old(self)) + data@,
    {
        self.inner.update(data.as_slice());
    }

    /// Relies on sha2's `Digest::finalize`: the digest is 32 bytes and
    /// depends on the absorbed bytes alone.
    #[verifier::external_body]
    pub fn finalize(self) -> (d: Vec<u8>)
        ensures
            d@ == sha256_of(absorbed(self)),
            d@.len() == 32,
    {
        self.inner.finalize().to_vec()
    }
}

} // verus!
