//! Arithmetic modulo the group order: the few identities on which the
//! protocol's correctness rests.

use crate::group::{add_mod, group_order, lemma_order_positive, mul_mod, sub_mod};
use vstd::arithmetic::div_mod::{
    lemma_add_mod_noop, lemma_mod_bound, lemma_mod_multiples_vanish, lemma_mod_twice,
    lemma_mul_mod_noop_general, lemma_small_mod,
};
use vstd::prelude::*;

verus! {

/// Whether two integers leave the same remainder modulo the group order.
pub open spec fn congruent(a: int, b: int) -> bool {
    a % (group_order() as int) == b % (group_order() as int)
}

/// Products of congruent numbers are congruent.
pub proof fn lemma_congruent_products(a: int, b: int, c: int, d: int)
    requires
        congruent(a, b),
        congruent(c, d),
    ensures
        congruent(a * c, b * d),
{
    lemma_order_positive();
    lemma_mul_mod_noop_general(a, c, group_order() as int);
    lemma_mul_mod_noop_general(b, d, group_order() as int);
}

/// Sums of congruent numbers are congruent.
pub proof fn lemma_congruent_sums(a: int, b: int, c: int, d: int)
    requires
        congruent(a, b),
        congruent(c, d),
    ensures
        congruent(a + c, b + d),
{
    lemma_order_positive();
    lemma_add_mod_noop(a, c, group_order() as int);
    lemma_add_mod_noop(b, d, group_order() as int);
}

/// Two congruent numbers below the group order are equal.
pub proof fn lemma_congruent_reduced(a: nat, b: nat)
    requires
        congruent(a as int, b as int),
        a < group_order(),
        b < group_order(),
    ensures
        a == b,
{
    lemma_small_mod(a, group_order());
    lemma_small_mod(b, group_order());
}

/// The three operations are the integer ones up to congruence, and their
/// results lie below the group order.
pub proof fn lemma_operations(a: nat, b: nat)
    ensures
        congruent(mul_mod(a, b) as int, (a as int) * (b as int)),
        congruent(add_mod(a, b) as int, (a as int) + (b as int)),
        congruent(sub_mod(a, b) as int, (a as int) - (b as int)),
        mul_mod(a, b) < group_order(),
        add_mod(a, b) < group_order(),
        sub_mod(a, b) < group_order(),
{
    let q = group_order() as int;
    let x = a as int;
    let y = b as int;
    lemma_order_positive();
    lemma_mod_twice(x * y, q);
    lemma_mod_twice(x + y, q);
    lemma_mod_twice(x + q - y, q);
    lemma_mod_multiples_vanish(1, x - y, q);
    assert(q * 1 + (x - y) == x + q - y);
    lemma_mod_bound(x * y, q);
    lemma_mod_bound(x + y, q);
    lemma_mod_bound(x + q - y, q);
    assert((a * b) as int == x * y) by (nonlinear_arith)
        requires
            x == a as int,
            y == b as int,
    ;
}

/// Multiplying by `r`, then by `e`, then by the inverse of `r` is
/// multiplying by `e`.
pub proof fn lemma_blinding_cancels(r_inv: nat, r: nat, e: nat, x: nat)
    requires
        mul_mod(r_inv, r) == 1,
    ensures
        mul_mod(r_inv, mul_mod(e, mul_mod(r, x))) == mul_mod(e, x),
{
    lemma_order_positive();
    let rx = mul_mod(r, x);
    let erx = mul_mod(e, rx);
    let (ri, rr, ee, xx) = (r_inv as int, r as int, e as int, x as int);
    lemma_operations(r, x);
    lemma_operations(e, rx);
    lemma_operations(r_inv, erx);
    lemma_operations(r_inv, r);
    lemma_operations(e, x);
    // e * (r * x mod q) is congruent to e * (r * x)
    lemma_congruent_products(ee, ee, rx as int, rr * xx);
    // r_inv * (e * rx mod q) is congruent to r_inv * (e * (r * x))
    lemma_congruent_products(ri, ri, erx as int, ee * (rr * xx));
    assert(ri * (ee * (rr * xx)) == (ri * rr) * (ee * xx)) by (nonlinear_arith);
    // (r_inv * r) * (e * x) is congruent to 1 * (e * x)
    lemma_congruent_products(ri * rr, 1, ee * xx, ee * xx);
    assert(1 * (ee * xx) == ee * xx);
    lemma_congruent_reduced(mul_mod(r_inv, erx), mul_mod(e, x));
}

/// The response `s = nonce - c * k` gives the nonce back: `s + c * k` is `nonce`.
pub proof fn lemma_response_opens(nonce: nat, c: nat, k: nat)
    requires
        nonce < group_order(),
    ensures
        add_mod(mul_mod(sub_mod(nonce, mul_mod(c, k)), 1), mul_mod(c, k)) == nonce,
{
    lemma_order_positive();
    let ck = mul_mod(c, k);
    let s = sub_mod(nonce, ck);
    lemma_operations(c, k);
    lemma_operations(nonce, ck);
    lemma_operations(s, 1);
    lemma_operations(mul_mod(s, 1), ck);
    assert((s as int) * 1 == s as int);
    lemma_congruent_sums(mul_mod(s, 1) as int, nonce - ck, ck as int, ck as int);
    assert(nonce - ck + ck == nonce as int);
    lemma_congruent_reduced(add_mod(mul_mod(s, 1), ck), nonce);
}

/// With `xp = k^-1 * xq`, the response `s = nonce - c * k` satisfies
/// `s * xp + c * xq = nonce * xp`.
pub proof fn lemma_response_transfers(nonce: nat, c: nat, k: nat, k_inv: nat, xq: nat)
    requires
        mul_mod(k_inv, k) == 1,
    ensures
        add_mod(
            mul_mod(sub_mod(nonce, mul_mod(c, k)), mul_mod(k_inv, xq)),
            mul_mod(c, xq),
        ) == mul_mod(nonce, mul_mod(k_inv, xq)),
{
    lemma_order_positive();
    let ck = mul_mod(c, k);
    let s = sub_mod(nonce, ck);
    let xp = mul_mod(k_inv, xq);
    let (n, cc, kk, ki, q_x, p_x) = (
        nonce as int,
        c as int,
        k as int,
        k_inv as int,
        xq as int,
        xp as int,
    );
    lemma_operations(c, k);
    lemma_operations(nonce, ck);
    lemma_operations(k_inv, xq);
    lemma_operations(k_inv, k);
    lemma_operations(s, xp);
    lemma_operations(c, xq);
    lemma_operations(mul_mod(s, xp), mul_mod(c, xq));
    lemma_operations(nonce, xp);
    // s is congruent to nonce - c * k
    lemma_congruent_products(-1, -1, ck as int, cc * kk);
    assert(-1 * (ck as int) == -(ck as int));
    assert(-1 * (cc * kk) == -(cc * kk));
    lemma_congruent_sums(n, n, -(ck as int), -(cc * kk));
    assert(n + (-(ck as int)) == n - ck);
    assert(n + (-(cc * kk)) == n - cc * kk);
    assert(congruent(s as int, n - cc * kk));
    // s * xp is congruent to (nonce - c * k) * xp
    lemma_congruent_products(s as int, n - cc * kk, p_x, p_x);
    // k * xp is congruent to xq
    lemma_congruent_products(kk, kk, p_x, ki * q_x);
    assert(kk * (ki * q_x) == (ki * kk) * q_x) by (nonlinear_arith);
    lemma_congruent_products(ki * kk, 1, q_x, q_x);
    assert(1 * q_x == q_x);
    assert(congruent(kk * p_x, q_x));
    // c * xq is congruent to c * (k * xp)
    lemma_congruent_products(cc, cc, q_x, kk * p_x);
    lemma_congruent_sums(
        mul_mod(s, xp) as int,
        (n - cc * kk) * p_x,
        mul_mod(c, xq) as int,
        cc * (kk * p_x),
    );
    assert((n - cc * kk) * p_x + cc * (kk * p_x) == n * p_x) by (nonlinear_arith);
    lemma_congruent_reduced(add_mod(mul_mod(s, xp), mul_mod(c, xq)), mul_mod(nonce, xp));
}

} // verus!
