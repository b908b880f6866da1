//! SHAKE256 as an extendable-output function, seen through what it has
//! absorbed.
//!
//! The sponge state of `sha3::Shake256` is opaque here; what the library's
//! logic depends on is only the byte string absorbed so far (absorbing `a`
//! then `b` is absorbing `a ‖ b`) and the output stream of that string.
use vstd::prelude::*;

verus! {

/// Byte `i` of the SHAKE256 output stream on input `input`.
pub uninterp spec fn shake256_byte(input: Seq<u8>, i: nat) -> u8;

/// A SHAKE256 hasher in its absorbing phase.
#[verifier::external_body]
pub struct ShakeState {
    inner: sha3::Shake256,
}

/// The bytes a hasher has absorbed since it was created.
pub uninterp spec fn shake_absorbed(s: ShakeState) -> Seq<u8>;

impl ShakeState {
    /// A fresh hasher (`sha3::Shake256::default`), having absorbed nothing.
    #[verifier::external_body]
    pub fn new() -> (s: Self)
        ensures
            shake_absorbed(s) == Seq::<u8>::empty(),
    {
        ShakeState { inner: <sha3::Shake256 as Default>::default() }
    }

    /// Absorb `data` (`Update::update`): the absorbed string grows by
    /// `data`.
    #[verifier::external_body]
    pub fn update(&mut self, data: &[u8])
        ensures
            shake_absorbed(*final(self)) == shake_absorbed(*old(self)) + data@,
    {
        sha3::digest::Update::update(&mut self.inner, data);
    }

    /// A copy of the hasher (`Clone::clone`), having absorbed the same bytes.
    #[verifier::external_body]
    pub fn duplicate(&self) -> (s: Self)
        ensures
            shake_absorbed(s) == shake_absorbed(*self),
    {
        ShakeState { inner: self.inner.clone() }
    }

    /// The first `n` bytes of the output stream of what has been absorbed:
    /// a copy of the hasher is finalised (`ExtendableOutput::finalize_xof`)
    /// and `n` bytes are read from its reader (`XofReader::read`); the
    /// hasher itself is left as it was.
    #[verifier::external_body]
    pub fn squeeze(&self, n: usize) -> (out: Vec<u8>)
        ensures
            out@.len() == n,
            forall|i: int|
                0 <= i < n ==> #[trigger] out@[i] == shake256_byte(shake_absorbed(*self), i as nat),
    {
        let mut reader = sha3::digest::ExtendableOutput::finalize_xof(self.inner.clone());
        let mut out = vec![0u8; n];
        sha3::digest::XofReader::read(&mut reader, &mut out);
        out
    }
}

} // verus!
