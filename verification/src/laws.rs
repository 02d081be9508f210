//! What holds of the protocol as a whole, proved from the contracts of its parts.

use crate::dleq::{
    accepts, dleq_label, is_combination, is_verdict, made_with, proof_for, ProofView,
};
use crate::error::PPRFError;
use crate::ggm::{prg_label, GgmView};
use crate::group::{
    add_mod, group_order, inverse, is_element, is_inverse, is_multiple, is_sum, mul_mod, point_of,
};
use crate::modular::{lemma_blinding_cancels, lemma_response_opens, lemma_response_transfers};
use crate::ppoprf::{
    client_label, finalize_label, finalize_message, finalize_output, is_client_verdict,
    tag_scalar, ServerView,
};
use vstd::prelude::*;

verus! {

/// Client and server agree: blinding the element `h` with an invertible
/// factor `r`, multiplying the blinded element by `e` as the server does, and
/// taking the factor off again gives what the server returns on `h` itself.
pub proof fn lemma_unblinded_is_direct(
    h: Seq<u8>,
    r: nat,
    e: nat,
    blinded: Seq<u8>,
    evaluated: Seq<u8>,
    unblinded: Seq<u8>,
    direct: Seq<u8>,
)
    requires
        is_element(h),
        is_inverse(inverse(r), r),
        is_multiple(blinded, r, h),
        is_multiple(evaluated, e, blinded),
        is_multiple(unblinded, inverse(r), evaluated),
        is_multiple(direct, e, h),
    ensures
        unblinded == direct,
{
    let x = choose|x: nat| h == #[trigger] point_of(x);
    assert(h == point_of(x));
    let x1 = mul_mod(r, x);
    assert(blinded == point_of(x1));
    let x2 = mul_mod(e, x1);
    assert(evaluated == point_of(x2));
    assert(unblinded == point_of(mul_mod(inverse(r), x2)));
    assert(direct == point_of(mul_mod(e, x)));
    lemma_blinding_cancels(inverse(r), r, e, x);
}

/// An honest proof is accepted: where the server evaluates the element
/// `point` to `output` under the invertible key `k`, and proves it with any
/// nonce against the public value `k * B`, the verdict of the verifier is yes.
pub proof fn lemma_honest_proof_accepted(
    k: nat,
    nonce: nat,
    point: Seq<u8>,
    output: Seq<u8>,
    proof: ProofView,
    ok: bool,
)
    requires
        nonce < group_order(),
        is_inverse(inverse(k), k),
        is_element(point),
        is_multiple(output, inverse(k), point),
        made_with(proof, nonce, k, point_of(k), output, point),
        is_verdict(ok, proof, point_of(k), output, point),
    ensures
        ok,
{
    let xq = choose|x: nat| point == #[trigger] point_of(x);
    assert(point == point_of(xq));
    let xp = mul_mod(inverse(k), xq);
    assert(output == point_of(xp));
    let nonce_p = choose|nonce_p: Seq<u8>|
        is_multiple(nonce_p, nonce, output) && proof == #[trigger] proof_for(
            nonce,
            k,
            point_of(k),
            output,
            point,
            nonce_p,
        );
    assert(nonce_p == point_of(mul_mod(nonce, xp)));
    let (a, b) = choose|a: Seq<u8>, b: Seq<u8>|
        {
            &&& is_combination(a, proof.s, point_of(1), proof.c, point_of(k))
            &&& is_combination(b, proof.s, output, proof.c, point)
            &&& ok == #[trigger] accepts(proof, point_of(k), output, point, a, b)
        };
    assert(a == point_of(add_mod(mul_mod(proof.s, 1), mul_mod(proof.c, k))));
    assert(b == point_of(add_mod(mul_mod(proof.s, xp), mul_mod(proof.c, xq))));
    lemma_response_opens(nonce, proof.c, k);
    lemma_response_transfers(nonce, proof.c, k, inverse(k), xq);
}

/// An honest evaluation verifies against the server's public key: the
/// verdict of the client on the output and the proof that the server gives
/// for the element `point` at a tag `md` under an invertible key is yes.
pub proof fn lemma_honest_evaluation_verifies(
    server: ServerView,
    md: u8,
    nonce: nat,
    point: Seq<u8>,
    output: Seq<u8>,
    proof: ProofView,
    ok: bool,
)
    requires
        server.consistent(),
        server.refusal(md) is None,
        nonce < group_order(),
        is_inverse(inverse(server.tagged_key(md)), server.tagged_key(md)),
        is_element(point),
        is_element(output),
        is_multiple(output, inverse(server.tagged_key(md)), point),
        made_with(
            proof,
            nonce,
            server.tagged_key(md),
            point_of(server.tagged_key(md)),
            output,
            point,
        ),
        is_client_verdict(ok, server.public_key, point, output, Some(proof), md),
    ensures
        ok,
{
    assert(server.public_key.md_pks.contains_key(md));
    assert(server.public_key.base_pk == point_of(server.key));
    assert(server.public_key.md_pks[md] == point_of(tag_scalar(server.pprf.root, md)));
    let public_value = choose|public_value: Seq<u8>| #[trigger]
        is_sum(public_value, server.public_key.base_pk, server.public_key.md_pks[md])
            && is_verdict(ok, proof, public_value, output, point);
    assert(public_value == point_of(add_mod(server.key, tag_scalar(server.pprf.root, md))));
    lemma_honest_proof_accepted(server.tagged_key(md), nonce, point, output, proof, ok);
}

/// The four labels under which the library hashes are pairwise different,
/// so that no digest of one use can stand for a digest of another.
pub proof fn lemma_labels_differ()
    ensures
        dleq_label() != client_label(),
        dleq_label() != finalize_label(),
        dleq_label() != prg_label(),
        client_label() != finalize_label(),
        client_label() != prg_label(),
        finalize_label() != prg_label(),
{
    reveal_strlit("ppoprf_dleq_hash");
    reveal_strlit("ppoprf_derive_client_input");
    reveal_strlit("ppoprf_finalize");
    reveal_strlit("ppoprf_ggm_prg");
    assert(dleq_label().len() == 16);
    assert(client_label().len() == 26);
    assert(finalize_label().len() == 15);
    assert(prg_label().len() == 14);
}

/// The final output is a function of the input, the tag and the unblinded
/// element: two outputs for the same three are the same bytes.
pub proof fn lemma_finalize_deterministic(
    input: Seq<u8>,
    md: u8,
    unblinded: Seq<u8>,
    first: Seq<u8>,
    second: Seq<u8>,
)
    requires
        first == finalize_output(input, md, unblinded),
        second == finalize_output(input, md, unblinded),
    ensures
        first == second,
{
}

/// Different tags are hashed apart: for one input, the messages that are
/// hashed to the final outputs under two different tags differ, whatever the
/// unblinded elements are.
pub proof fn lemma_tags_give_different_messages(
    input: Seq<u8>,
    md1: u8,
    md2: u8,
    unblinded1: Seq<u8>,
    unblinded2: Seq<u8>,
)
    requires
        md1 != md2,
    ensures
        finalize_message(input, md1, unblinded1) != finalize_message(input, md2, unblinded2),
{
    let at = input.len() as int;
    assert(finalize_message(input, md1, unblinded1)[at] == md1);
    assert(finalize_message(input, md2, unblinded2)[at] == md2);
}

/// Puncturing is forward-secure: once `md` is punctured the function can
/// not be evaluated at `md`, while every other tag keeps its state and its
/// value.
pub proof fn lemma_puncture_forgets_one_tag(pprf: GgmView, md: u8, other: u8)
    requires
        other != md,
    ensures
        pprf.punctured(md).eval(md) == Err::<Seq<u8>, PPRFError>(PPRFError::NoPrefixFound),
        pprf.punctured(md).eval(other) == pprf.eval(other),
{
}

/// What was punctured stays punctured: a tag that can not be evaluated can
/// not be evaluated after any further puncturing either.
pub proof fn lemma_punctured_stays_punctured(pprf: GgmView, md: u8, later: u8)
    requires
        pprf.eval(md) is Err,
    ensures
        pprf.punctured(later).eval(md) == Err::<Seq<u8>, PPRFError>(PPRFError::NoPrefixFound),
{
}

/// On the server, puncturing a tag that it was set up with makes every
/// evaluation at that tag fail with `NoPrefixFound`, and leaves every other
/// tag as it was: refused or not as before, and evaluated under the same key.
pub proof fn lemma_server_puncture(server: ServerView, md: u8, other: u8)
    requires
        server.public_key.md_pks.contains_key(md),
        other != md,
    ensures
        server.punctured(md).refusal(md) == Some(PPRFError::NoPrefixFound),
        server.punctured(md).refusal(other) == server.refusal(other),
        server.punctured(md).tagged_key(other) == server.tagged_key(other),
        server.punctured(md).public_key == server.public_key,
        server.consistent() ==> server.punctured(md).consistent(),
{
}

/// A tag that the server was not set up with is refused with `BadTag`,
/// before and after any puncturing.
pub proof fn lemma_unknown_tag_refused(server: ServerView, md: u8, punctured: u8)
    requires
        !server.public_key.md_pks.contains_key(md),
    ensures
        server.refusal(md) == Some(PPRFError::BadTag { md }),
        server.punctured(punctured).refusal(md) == Some(PPRFError::BadTag { md }),
{
}

} // verus!
