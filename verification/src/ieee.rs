//! A model of IEEE-754 binary32 values as bit patterns.
//!
//! A pattern is read as sign, exponent field and fraction. The magnitude of a
//! finite pattern is stated in units of 2^-149, the smallest positive binary32
//! value, so that every finite magnitude is a natural number.
use crate::rounding::{lemma_round_scales, lemma_round_small, round_to_nearest};
use vstd::arithmetic::power2::{
    lemma2_to64, lemma_pow2_adds, lemma_pow2_pos, lemma_pow2_strictly_increases,
    lemma_pow2_unfold, pow2,
};
use vstd::prelude::*;

verus! {

/// The pattern of positive infinity; every smaller pattern is a non-negative
/// finite value.
pub const INFINITY_BITS: u32 = 0x7F80_0000;

/// The pattern of negative zero; it and every larger pattern has the sign bit set.
pub const SIGN_BIT: u32 = 0x8000_0000;

/// The 8-bit exponent field of a pattern.
pub open spec fn exponent_field(bits: u32) -> nat {
    ((bits / 0x80_0000) % 0x100) as nat
}

/// The 23-bit fraction field of a pattern.
pub open spec fn fraction(bits: u32) -> nat {
    (bits % 0x80_0000) as nat
}

/// Whether the sign bit is set.
pub open spec fn is_negative(bits: u32) -> bool {
    bits >= SIGN_BIT
}

/// Whether the pattern is a NaN of either sign.
pub open spec fn is_nan(bits: u32) -> bool {
    exponent_field(bits) == 255 && fraction(bits) != 0
}

/// The absolute value that a pattern denotes, multiplied by 2^149. The
/// exponent field 255 is read like any other, so infinity comes out above
/// every finite magnitude.
pub open spec fn magnitude(bits: u32) -> nat {
    if exponent_field(bits) == 0 {
        fraction(bits)
    } else {
        (0x80_0000 + fraction(bits)) * pow2((exponent_field(bits) - 1) as nat)
    }
}

/// Doubling the left factor and halving the right power keeps the product.
pub proof fn lemma_shift_product(s: nat, e: nat)
    requires
        e > 0,
    ensures
        (2 * s) * pow2((e - 1) as nat) == s * pow2(e),
{
    lemma_pow2_unfold(e);
    let p = pow2((e - 1) as nat);
    assert((2 * s) * p == s * (2 * p)) by (nonlinear_arith);
}

/// A number below `2^a` times `2^t` lies below `2^(a + t)`.
pub proof fn lemma_product_below(n: nat, a: nat, t: nat)
    requires
        n < pow2(a),
    ensures
        n * pow2(t) < pow2(a + t),
{
    lemma_pow2_adds(a, t);
    lemma_pow2_pos(t);
    assert(n * pow2(t) < pow2(a) * pow2(t)) by (nonlinear_arith)
        requires
            n < pow2(a),
            pow2(t) > 0,
    ;
}

/// The pattern of the non-negative value `n * 2^t` in units of 2^-149, for a
/// value that is finite and takes no more than 24 significant bits, so that
/// it is exactly representable.
pub fn exact_bits(n: u32, t: u32) -> (bits: u32)
    requires
        n < 0x100_0000,
        n * pow2(t as nat) < pow2(277),
    ensures
        bits < INFINITY_BITS,
        magnitude(bits) == n * pow2(t as nat),
{
    let mut sig: u32 = n;
    let mut ex: u32 = t;
    proof {
        lemma2_to64();
    }
    while sig < 0x80_0000 && ex > 0
        invariant
            sig * pow2(ex as nat) == n * pow2(t as nat),
            sig < 0x100_0000,
        decreases ex,
    {
        proof {
            lemma_shift_product(sig as nat, ex as nat);
        }
        sig = sig * 2;
        ex = ex - 1;
    }
    if sig < 0x80_0000 {
        assert(sig * pow2(0) == sig) by {
            lemma2_to64();
        }
        sig
    } else {
        proof {
            lemma2_to64();
            if ex >= 254 {
                lemma_pow2_monotonic(254, ex as nat);
                lemma_pow2_adds(23, 254);
                assert(sig * pow2(ex as nat) >= 0x80_0000 * pow2(254)) by (nonlinear_arith)
                    requires
                        sig >= 0x80_0000,
                        pow2(ex as nat) >= pow2(254),
                ;
            }
            assert(ex <= 253);
        }
        let bits: u32 = (ex + 1) * 0x80_0000 + (sig - 0x80_0000);
        assert(bits / 0x80_0000 == ex + 1);
        assert(bits % 0x80_0000 == sig - 0x80_0000);
        bits
    }
}

/// Powers of two grow with the exponent.
pub proof fn lemma_pow2_monotonic(a: nat, b: nat)
    requires
        a <= b,
    ensures
        pow2(a) <= pow2(b),
{
    if a < b {
        lemma_pow2_strictly_increases(a, b);
    }
}

/// A power of two times a small power of two is the power of the sum.
pub proof fn lemma_pow2_times(c: nat, a: nat, b: nat)
    ensures
        c * pow2(a) * pow2(b) == c * pow2(a + b),
{
    lemma_pow2_adds(a, b);
    assert(c * pow2(a) * pow2(b) == c * (pow2(a) * pow2(b))) by (nonlinear_arith);
}

/// Among patterns without the sign bit, a larger pattern denotes a larger
/// magnitude.
pub proof fn lemma_magnitude_order(a: u32, b: u32)
    requires
        a < b,
        b < SIGN_BIT,
    ensures
        magnitude(a) < magnitude(b),
{
    let ea = exponent_field(a);
    let eb = exponent_field(b);
    let fa = fraction(a);
    let fb = fraction(b);
    assert(ea == a / 0x80_0000 && eb == b / 0x80_0000);
    assert(ea <= eb);
    if ea == eb {
        if ea > 0 {
            let p = pow2((ea - 1) as nat);
            lemma_pow2_pos((ea - 1) as nat);
            assert((0x80_0000 + fa) * p < (0x80_0000 + fb) * p) by (nonlinear_arith)
                requires
                    fa < fb,
                    p > 0,
            ;
        }
    } else {
        let q = pow2((eb - 1) as nat);
        lemma_pow2_pos((eb - 1) as nat);
        assert(0x80_0000 * q <= (0x80_0000 + fb) * q) by (nonlinear_arith)
            requires
                fb >= 0,
                q > 0,
        ;
        if ea == 0 {
            assert(0x80_0000 * q >= 0x80_0000) by (nonlinear_arith)
                requires
                    q > 0,
            ;
        } else {
            let p = pow2((ea - 1) as nat);
            lemma_pow2_pos((ea - 1) as nat);
            lemma_pow2_unfold(ea);
            lemma_pow2_monotonic(ea, (eb - 1) as nat);
            assert((0x80_0000 + fa) * p < 0x100_0000 * p) by (nonlinear_arith)
                requires
                    fa < 0x80_0000,
                    p > 0,
            ;
            assert(0x100_0000 * p == 0x80_0000 * (2 * p)) by (nonlinear_arith);
            assert(0x80_0000 * (2 * p) <= 0x80_0000 * q) by (nonlinear_arith)
                requires
                    2 * p <= q,
            ;
        }
    }
}

/// A pattern without the sign bit is known by its magnitude.
pub proof fn lemma_magnitude_names_pattern(a: u32, b: u32)
    requires
        a < SIGN_BIT,
        b < SIGN_BIT,
        magnitude(a) == magnitude(b),
    ensures
        a == b,
{
    if a < b {
        lemma_magnitude_order(a, b);
    } else if b < a {
        lemma_magnitude_order(b, a);
    }
}

/// Two to the power `s`, for an `s` that fits.
pub fn pow2_u32(s: u32) -> (d: u32)
    requires
        s <= 25,
    ensures
        d == pow2(s as nat),
        d <= 0x200_0000,
{
    let mut d: u32 = 1;
    let mut i: u32 = 0;
    proof {
        lemma2_to64();
    }
    while i < s
        invariant
            i <= s,
            s <= 25,
            d == pow2(i as nat),
            d <= pow2(25),
            pow2(25) == 0x200_0000,
        decreases s - i,
    {
        proof {
            lemma_pow2_unfold((i + 1) as nat);
            lemma_pow2_monotonic((i + 1) as nat, 25);
        }
        d = d * 2;
        i = i + 1;
    }
    d
}

/// The magnitude of a non-negative finite pattern divided by `2^t` (both in
/// units of 2^-149) and rounded to the nearest integer.
pub fn round_scaled(bits: u32, t: u32, ties_even: bool) -> (q: u32)
    requires
        bits < INFINITY_BITS,
        exponent_field(bits) <= t + 1,
        t <= 1024,
    ensures
        q == round_to_nearest(magnitude(bits), pow2(t as nat), ties_even),
        q <= 0x100_0000,
{
    let ef: u32 = bits / 0x80_0000;
    let frac: u32 = bits % 0x80_0000;
    let sig: u32 = if ef == 0 { frac } else { frac + 0x80_0000 };
    let ec: u32 = if ef == 0 { 1 } else { ef };
    let s: u32 = t + 1 - ec;
    proof {
        let k = pow2((ec - 1) as nat);
        lemma2_to64();
        lemma_pow2_pos((ec - 1) as nat);
        lemma_pow2_pos(s as nat);
        lemma_pow2_adds(s as nat, (ec - 1) as nat);
        assert(exponent_field(bits) == ef);
        assert(fraction(bits) == frac);
        if ef == 0 {
            assert(sig * k == frac) by (nonlinear_arith)
                requires
                    sig == frac,
                    k == 1,
            ;
        }
        assert(magnitude(bits) == sig * k);
        assert(pow2(t as nat) == pow2(s as nat) * k);
        lemma_round_scales(sig as nat, pow2(s as nat), k, ties_even);
    }
    if s > 25 {
        proof {
            lemma_pow2_strictly_increases(25, s as nat);
            lemma_round_small(sig as nat, pow2(s as nat), ties_even);
        }
        0
    } else {
        let d: u32 = pow2_u32(s);
        let q: u32 = sig / d;
        let r: u32 = sig % d;
        let up: bool = if ties_even {
            2 * r > d || (2 * r == d && q % 2 == 1)
        } else {
            2 * r >= d
        };
        if up {
            q + 1
        } else {
            q
        }
    }
}

} // verus!
