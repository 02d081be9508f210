//! A labelled hash with 64-byte digests, drawn from a Strobe-128 sponge.

use vstd::prelude::*;

verus! {

/// Length in bytes of every digest.
pub const DIGEST_LEN: usize = 64;

/// The 64 bytes that a Strobe-128 sponge, opened under the protocol string
/// `label` and keyed with `input`, gives out as its pseudorandom output.
pub uninterp spec fn strobe_digest(label: Seq<char>, input: Seq<u8>) -> Seq<u8>;

/// Runs strobe-rs: `Strobe::new` with the label's bytes and `SecParam::B128`,
/// then `key` with the input, then `prf` for 64 bytes. The result depends on
/// the label and the input alone, so it is given the name `strobe_digest`.
#[verifier::external_body]
pub(crate) fn strobe_prf(input: &[u8], label: &str) -> (out: [u8; 64])
    ensures
        out@ == strobe_digest(label@, input@),
{
    let mut sponge = strobe_rs::Strobe::new(label.as_bytes(), strobe_rs::SecParam::B128);
    sponge.key(input, false);
    let mut out = [0u8; 64];
    sponge.prf(&mut out, false);
    out
}

/// Hashes `input` under `label` and writes the 64-byte digest into `out`.
pub fn strobe_hash(input: &[u8], label: &str, out: &mut [u8])
    requires
        old(out)@.len() == DIGEST_LEN,
    ensures
        final(out)@ == strobe_digest(label@, input@),
{
    let digest = strobe_prf(input, label);
    let mut i: usize = 0;
    while i < DIGEST_LEN
        invariant
            i <= DIGEST_LEN,
            out@.len() == DIGEST_LEN,
            forall|k: int| 0 <= k < i ==> out@[k] == digest@[k],
        decreases DIGEST_LEN - i,
    {
        out[i] = digest[i];
        i += 1;
    }
    assert(out@ =~= digest@);
}

} // verus!
