//! Rounding of a quotient to the nearest integer.
use vstd::arithmetic::div_mod::{
    lemma_fundamental_div_mod, lemma_fundamental_div_mod_converse_div,
    lemma_fundamental_div_mod_converse_mod, lemma_mod_bound,
};
use vstd::prelude::*;

verus! {

/// `n / d` rounded to the nearest integer, a tie going to the even neighbour.
pub open spec fn round_half_even(n: nat, d: nat) -> nat {
    let q = n / d;
    let r = n % d;
    if 2 * r > d || (2 * r == d && q % 2 == 1) {
        q + 1
    } else {
        q
    }
}

/// `n / d` rounded to the nearest integer, a tie going upwards.
pub open spec fn round_half_up(n: nat, d: nat) -> nat {
    let q = n / d;
    let r = n % d;
    if 2 * r >= d {
        q + 1
    } else {
        q
    }
}

/// `n / d` rounded to the nearest integer under either rule for ties.
pub open spec fn round_to_nearest(n: nat, d: nat, ties_even: bool) -> nat {
    if ties_even {
        round_half_even(n, d)
    } else {
        round_half_up(n, d)
    }
}

/// A common factor of numerator and denominator does not change the rounded
/// quotient.
pub proof fn lemma_round_scales(a: nat, d: nat, k: nat, ties_even: bool)
    requires
        d > 0,
        k > 0,
    ensures
        round_to_nearest(a * k, d * k, ties_even) == round_to_nearest(a, d, ties_even),
{
    let q = a / d;
    let r = a % d;
    lemma_fundamental_div_mod(a as int, d as int);
    lemma_mod_bound(a as int, d as int);
    assert(a * k == q * (d * k) + r * k) by (nonlinear_arith)
        requires
            a == d * q + r,
    ;
    assert(r * k < d * k) by (nonlinear_arith)
        requires
            r < d,
            k > 0,
    ;
    assert(d * k > 0) by (nonlinear_arith)
        requires
            d > 0,
            k > 0,
    ;
    lemma_fundamental_div_mod_converse_div((a * k) as int, (d * k) as int, q as int, (r * k) as int);
    lemma_fundamental_div_mod_converse_mod((a * k) as int, (d * k) as int, q as int, (r * k) as int);
    assert((2 * (r * k) > d * k) == (2 * r > d)) by (nonlinear_arith)
        requires
            k > 0,
    ;
    assert((2 * (r * k) == d * k) == (2 * r == d)) by (nonlinear_arith)
        requires
            k > 0,
    ;
}

/// A numerator below half the denominator rounds to zero.
pub proof fn lemma_round_small(n: nat, d: nat, ties_even: bool)
    requires
        2 * n < d,
    ensures
        round_to_nearest(n, d, ties_even) == 0,
{
    lemma_fundamental_div_mod_converse_div(n as int, d as int, 0, n as int);
    lemma_fundamental_div_mod_converse_mod(n as int, d as int, 0, n as int);
}

/// An exact multiple of the denominator rounds to its quotient.
pub proof fn lemma_round_exact(k: nat, d: nat, ties_even: bool)
    requires
        d > 0,
    ensures
        round_to_nearest(k * d, d, ties_even) == k,
{
    lemma_fundamental_div_mod_converse_div((k * d) as int, d as int, k as int, 0);
    lemma_fundamental_div_mod_converse_mod((k * d) as int, d as int, k as int, 0);
}

/// The rounded quotient is at most `k` where the numerator lies below
/// `(k + 1/2) * d`.
pub proof fn lemma_round_upper(n: nat, d: nat, k: nat, ties_even: bool)
    requires
        d > 0,
        2 * n < (2 * k + 1) * d,
    ensures
        round_to_nearest(n, d, ties_even) <= k,
{
    let q = n / d;
    let r = n % d;
    lemma_fundamental_div_mod(n as int, d as int);
    lemma_mod_bound(n as int, d as int);
    if q > k {
        assert(d * q >= d * (k + 1)) by (nonlinear_arith)
            requires
                q >= k + 1,
                d > 0,
        ;
        assert((2 * k + 1) * d == 2 * (d * (k + 1)) - d) by (nonlinear_arith);
    } else if q == k {
        assert((2 * k + 1) * d == 2 * (d * k) + d) by (nonlinear_arith);
    }
}

/// The rounded quotient, multiplied back, is within half a denominator of the
/// numerator.
pub proof fn lemma_round_error(n: nat, d: nat, ties_even: bool)
    requires
        d > 0,
    ensures
        2 * (round_to_nearest(n, d, ties_even) * d - n) <= d,
        2 * (n - round_to_nearest(n, d, ties_even) * d) <= d,
{
    let q = n / d;
    let r = n % d;
    lemma_fundamental_div_mod(n as int, d as int);
    lemma_mod_bound(n as int, d as int);
    assert((q + 1) * d == d * q + d) by (nonlinear_arith);
    assert(q * d == d * q) by (nonlinear_arith);
}

} // verus!
