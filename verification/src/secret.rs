//! Secrets that are erased from memory when their life ends.

use vstd::prelude::*;

verus! {

/// A string of `len` zero bytes.
pub open spec fn zeros(len: nat) -> Seq<u8> {
    Seq::new(len, |i: int| 0u8)
}

/// Calls `zeroize` of the zeroize crate on the buffer, which overwrites it
/// with zeros in a way that the compiler does not remove, and does not panic.
#[verifier::external_body]
pub(crate) fn erase<const N: usize>(buf: &mut [u8; N])
    ensures
        final(buf)@ == zeros(N as nat),
    opens_invariants none
    no_unwind
{
    zeroize::Zeroize::zeroize(buf);
}

/// Thirty-two secret bytes: a seed of the puncturable function, or one of its
/// values. They are erased from memory when the seed is dropped.
pub struct Seed {
    bytes: [u8; 32],
}

impl View for Seed {
    type V = Seq<u8>;

    closed spec fn view(&self) -> Seq<u8> {
        self.bytes@
    }
}

impl Clone for Seed {
    /// A copy of the seed, which is erased on its own when it is dropped.
    fn clone(&self) -> (copy: Seed)
        ensures
            copy@ == self@,
    {
        Seed { bytes: self.bytes }
    }
}

impl Drop for Seed {
    /// Erases the bytes.
    fn drop(&mut self)
        opens_invariants none
        no_unwind
    {
        erase(&mut self.bytes);
    }
}

impl Seed {
    /// The seed that holds `bytes`.
    pub fn new(bytes: [u8; 32]) -> (seed: Seed)
        ensures
            seed@ == bytes@,
    {
        Seed { bytes }
    }

    /// A copy of the bytes, for which the caller answers from then on.
    pub fn expose(&self) -> (bytes: [u8; 32])
        ensures
            bytes@ == self@,
    {
        self.bytes
    }

    /// The bytes, borrowed.
    pub fn as_bytes(&self) -> (bytes: &[u8; 32])
        ensures
            bytes@ == self@,
    {
        &self.bytes
    }

    /// A seed has 32 bytes, and is what its bytes are: two seeds with the
    /// same bytes are the same.
    pub proof fn lemma_decided_by_view(&self, other: &Seed)
        requires
            self@ == other@,
        ensures
            self@.len() == 32,
            *self == *other,
    {
        assert(self.bytes =~= other.bytes);
    }
}

} // verus!
