//! A model of IEEE-754 binary16 values as bit patterns, and their exact
//! conversion to binary32 patterns.
//!
//! The magnitude of a finite binary16 pattern is stated in units of 2^-24,
//! the smallest positive binary16 value.
use crate::ieee::{
    exact_bits, exponent_field, fraction, is_nan, is_negative, lemma_pow2_monotonic,
    lemma_product_below, lemma_shift_product, magnitude, round_scaled, SIGN_BIT,
};
use crate::rounding::{lemma_round_exact, lemma_round_scales, lemma_round_upper, round_half_even};
use vstd::arithmetic::power2::{
    lemma2_to64, lemma_pow2_adds, lemma_pow2_pos, lemma_pow2_unfold, pow2,
};
use vstd::prelude::*;

verus! {

/// The binary16 pattern of positive infinity.
pub const HALF_INFINITY_BITS: u16 = 0x7C00;

/// The binary16 pattern of 1.0.
pub const HALF_ONE_BITS: u16 = 0x3C00;

/// The 5-bit exponent field of a binary16 pattern.
pub open spec fn half_exponent_field(h: u16) -> nat {
    ((h / 0x400) % 0x20) as nat
}

/// The 10-bit fraction field of a binary16 pattern.
pub open spec fn half_fraction(h: u16) -> nat {
    (h % 0x400) as nat
}

/// Whether the sign bit of a binary16 pattern is set.
pub open spec fn half_is_negative(h: u16) -> bool {
    h >= 0x8000
}

/// Whether a binary16 pattern is a NaN of either sign.
pub open spec fn half_is_nan(h: u16) -> bool {
    half_exponent_field(h) == 31 && half_fraction(h) != 0
}

/// Whether a binary16 pattern is an infinity of either sign.
pub open spec fn half_is_infinite(h: u16) -> bool {
    half_exponent_field(h) == 31 && half_fraction(h) == 0
}

/// The absolute value that a finite binary16 pattern denotes, multiplied by
/// 2^24.
pub open spec fn half_magnitude(h: u16) -> nat {
    if half_exponent_field(h) == 0 {
        half_fraction(h)
    } else {
        (0x400 + half_fraction(h)) * pow2((half_exponent_field(h) - 1) as nat)
    }
}

/// Among binary16 patterns without the sign bit, a larger pattern denotes a
/// larger magnitude.
pub proof fn lemma_half_magnitude_order(a: u16, b: u16)
    requires
        a < b,
        b < 0x8000,
    ensures
        half_magnitude(a) < half_magnitude(b),
{
    let ea = half_exponent_field(a);
    let eb = half_exponent_field(b);
    let fa = half_fraction(a);
    let fb = half_fraction(b);
    assert(ea == a / 0x400 && eb == b / 0x400);
    if ea == eb {
        if ea > 0 {
            let p = pow2((ea - 1) as nat);
            lemma_pow2_pos((ea - 1) as nat);
            assert((0x400 + fa) * p < (0x400 + fb) * p) by (nonlinear_arith)
                requires
                    fa < fb,
                    p > 0,
            ;
        }
    } else {
        let q = pow2((eb - 1) as nat);
        lemma_pow2_pos((eb - 1) as nat);
        assert(0x400 * q <= (0x400 + fb) * q) by (nonlinear_arith)
            requires
                fb >= 0,
                q > 0,
        ;
        if ea == 0 {
            assert(0x400 * q >= 0x400) by (nonlinear_arith)
                requires
                    q > 0,
            ;
        } else {
            let p = pow2((ea - 1) as nat);
            lemma_pow2_pos((ea - 1) as nat);
            lemma_pow2_unfold(ea);
            lemma_pow2_monotonic(ea, (eb - 1) as nat);
            assert((0x400 + fa) * p < 0x800 * p) by (nonlinear_arith)
                requires
                    fa < 0x400,
                    p > 0,
            ;
            assert(0x800 * p == 0x400 * (2 * p)) by (nonlinear_arith);
            assert(0x400 * (2 * p) <= 0x400 * q) by (nonlinear_arith)
                requires
                    2 * p <= q,
            ;
        }
    }
}

/// A binary16 pattern without the sign bit is known by its magnitude.
pub proof fn lemma_half_magnitude_names_pattern(a: u16, b: u16)
    requires
        a < 0x8000,
        b < 0x8000,
        half_magnitude(a) == half_magnitude(b),
    ensures
        a == b,
{
    if a < b {
        lemma_half_magnitude_order(a, b);
    } else if b < a {
        lemma_half_magnitude_order(b, a);
    }
}

/// Whether `bits` is the binary32 pattern of the value of `h`: the same sign
/// and the same magnitude, infinity for infinity, and for a NaN the quiet NaN
/// that carries its fraction in the top bits.
pub open spec fn widens_to(h: u16, bits: u32) -> bool {
    &&& is_negative(bits) == half_is_negative(h)
    &&& if half_is_nan(h) {
        exponent_field(bits) == 255 && fraction(bits) == if half_fraction(h) >= 0x200 {
            half_fraction(h) * 0x2000
        } else {
            0x40_0000 + half_fraction(h) * 0x2000
        }
    } else if half_is_infinite(h) {
        exponent_field(bits) == 255 && fraction(bits) == 0
    } else {
        exponent_field(bits) < 255 && magnitude(bits) == half_magnitude(h) * pow2(125)
    }
}

/// Setting the sign bit changes neither field nor the magnitude.
pub proof fn lemma_sign_bit(low: u32)
    requires
        low < SIGN_BIT,
    ensures
        exponent_field((low + SIGN_BIT) as u32) == exponent_field(low),
        fraction((low + SIGN_BIT) as u32) == fraction(low),
        magnitude((low + SIGN_BIT) as u32) == magnitude(low),
        exponent_field(low) == low / 0x80_0000,
{
    let bits = (low + SIGN_BIT) as u32;
    assert(bits / 0x80_0000 == low / 0x80_0000 + 256);
    assert(bits % 0x80_0000 == low % 0x80_0000);
}

/// The binary32 pattern of the magnitude of a binary16 pattern, without its
/// sign.
fn widen_magnitude(ef: u32, frac: u32) -> (low: u32)
    requires
        ef <= 31,
        frac < 0x400,
    ensures
        low < SIGN_BIT,
        ef == 31 && frac == 0 ==> low == 0x7F80_0000,
        ef == 31 && 0 < frac < 0x200 ==> low == 0x7FC0_0000 + frac * 0x2000,
        ef == 31 && frac >= 0x200 ==> low == 0x7F80_0000 + frac * 0x2000,
        ef == 0 ==> low < 0x7F80_0000 && magnitude(low) == frac * pow2(125),
        0 < ef < 31 ==> low < 0x7F80_0000 && magnitude(low) == (0x400 + frac) * pow2(
            (ef - 1) as nat,
        ) * pow2(125),
{
    proof {
        lemma2_to64();
    }
    if ef == 31 {
        if frac == 0 {
            0x7F80_0000
        } else if frac < 0x200 {
            0x7FC0_0000 + frac * 0x2000
        } else {
            0x7F80_0000 + frac * 0x2000
        }
    } else if ef == 0 {
        proof {
            lemma_product_below(frac as nat, 10, 125);
            lemma_pow2_monotonic(135, 277);
        }
        exact_bits(frac, 125)
    } else {
        let low: u32 = (ef + 112) * 0x80_0000 + frac * 0x2000;
        proof {
            assert(low / 0x80_0000 == ef + 112);
            assert(low % 0x80_0000 == frac * 0x2000);
            let p = pow2((ef - 1) as nat);
            lemma_pow2_adds((ef - 1) as nat, 112);
            lemma_pow2_adds(13, 112);
            assert(magnitude(low) == (0x80_0000 + frac * 0x2000) * pow2((ef + 111) as nat));
            assert((0x80_0000 + frac * 0x2000) * (p * pow2(112)) == (0x400 + frac) * p * (0x2000
                * pow2(112))) by (nonlinear_arith);
        }
        low
    }
}

/// Converts a binary16 pattern to the binary32 pattern of the same value.
/// Every binary16 value is a binary32 value, so nothing is rounded.
pub fn widen(h: u16) -> (bits: u32)
    ensures
        widens_to(h, bits),
{
    let ef: u32 = (h % 0x8000 / 0x400) as u32;
    let frac: u32 = (h % 0x400) as u32;
    assert(half_exponent_field(h) == ef);
    let low: u32 = widen_magnitude(ef, frac);
    proof {
        lemma_sign_bit(low);
    }
    if h >= 0x8000 {
        low + 0x8000_0000
    } else {
        low
    }
}

/// How far the step between binary16 values around a binary32 pattern lies
/// above the smallest step, as an exponent: the step is `2^(s - 24)`. Up to
/// the smallest normal binary16 value, `2^-14`, it is the smallest step.
pub open spec fn half_step_exponent(bits: u32) -> nat {
    if exponent_field(bits) <= 113 {
        0
    } else {
        (exponent_field(bits) - 113) as nat
    }
}

/// The number of binary16 steps nearest to the magnitude of a binary32
/// pattern, ties to even.
pub open spec fn half_steps(bits: u32) -> nat {
    round_half_even(magnitude(bits), pow2(half_step_exponent(bits) + 125))
}

/// Whether `h` is the binary16 pattern nearest to the value of `bits`: the
/// same sign; the magnitude rounded to a whole number of steps, ties to
/// even; infinity where that reaches `2^16` (`2^40` in units of 2^-24); and
/// for a NaN the quiet NaN that keeps the top ten bits of its fraction.
pub open spec fn narrows_to(bits: u32, h: u16) -> bool {
    &&& half_is_negative(h) == is_negative(bits)
    &&& if is_nan(bits) {
        half_exponent_field(h) == 31 && half_fraction(h) == if fraction(bits) / 0x2000 >= 0x200 {
            fraction(bits) / 0x2000
        } else {
            0x200 + fraction(bits) / 0x2000
        }
    } else if half_steps(bits) * pow2(half_step_exponent(bits)) >= pow2(40) {
        half_is_infinite(h)
    } else {
        &&& half_exponent_field(h) < 31
        &&& half_magnitude(h) == half_steps(bits) * pow2(half_step_exponent(bits))
    }
}

/// The pattern `s * 1024 + q` denotes `q` steps of `2^(s - 24)` where `q`
/// is a significand with its leading bit, or the next power of two, or, at
/// the smallest step, anything below.
pub proof fn lemma_half_pattern(s: nat, q: nat)
    requires
        q <= 2048,
        s >= 1 ==> q >= 1024,
        s * 1024 + q < 0x7C00,
    ensures
        half_exponent_field((s * 1024 + q) as u16) < 31,
        half_magnitude((s * 1024 + q) as u16) == q * pow2(s),
        q * pow2(s) < pow2(40),
{
    let h = (s * 1024 + q) as u16;
    lemma2_to64();
    lemma_pow2_pos(s);
    lemma_pow2_unfold(s + 1);
    assert(s <= 29);
    if q < 1024 {
        assert(s == 0);
        assert(h / 0x400 == 0 && h % 0x400 == q);
    } else if q < 2048 {
        assert(h / 0x400 == s + 1 && h % 0x400 == q - 1024);
    } else {
        assert(h / 0x400 == s + 2 && h % 0x400 == 0);
        assert(s <= 28);
        assert(1024 * (2 * pow2(s)) == 2048 * pow2(s));
    }
    lemma_pow2_monotonic(s, 29);
    lemma_pow2_adds(11, 29);
    if s == 29 {
        assert(q < 2048);
        assert(q * pow2(29) < 2048 * pow2(29)) by (nonlinear_arith)
            requires
                q < 2048,
                pow2(29) > 0,
        ;
    } else {
        lemma_pow2_monotonic(s, 28);
        lemma_pow2_unfold(29);
        assert(q * pow2(s) <= 2048 * pow2(28)) by (nonlinear_arith)
            requires
                q <= 2048,
                pow2(s) <= pow2(28),
        ;
    }
}

/// The steps of a finite non-negative binary32 pattern: at most 2048, and
/// a significand with its leading bit above the smallest step.
pub proof fn lemma_half_steps_bounds(low: u32)
    requires
        low < 0x7F80_0000,
    ensures
        half_steps(low) <= 2048,
        half_step_exponent(low) >= 1 ==> half_steps(low) >= 1024,
{
    let xf = exponent_field(low);
    let f = fraction(low);
    assert(xf == low / 0x80_0000);
    let s = half_step_exponent(low);
    lemma2_to64();
    if xf >= 114 {
        let p = pow2((xf - 1) as nat);
        lemma_pow2_pos((xf - 1) as nat);
        lemma_pow2_adds(13, (xf - 1) as nat);
        lemma_round_scales(0x80_0000 + f, 0x2000, p, true);
        assert(pow2(s + 125) == 0x2000 * p);
        assert(magnitude(low) == (0x80_0000 + f) * p);
        let q = round_half_even(0x80_0000 + f, 0x2000);
        assert(1024 <= (0x80_0000 + f) / 0x2000 < 2048);
    } else {
        let m = magnitude(low);
        lemma_pow2_pos(125);
        lemma_pow2_adds(11, 125);
        if xf >= 1 {
            let p = pow2((xf - 1) as nat);
            lemma_pow2_pos((xf - 1) as nat);
            lemma_pow2_monotonic((xf - 1) as nat, 112);
            lemma_pow2_adds(24, 112);
            assert((0x80_0000 + f) * p < 0x100_0000 * pow2(112)) by (nonlinear_arith)
                requires
                    f < 0x80_0000,
                    0 < p <= pow2(112),
            ;
        } else {
            lemma_pow2_monotonic(23, 136);
        }
        assert(m < pow2(136));
        let d = pow2(125);
        assert(pow2(136) == 2048 * d);
        assert((2 * 2048 + 1) * d == 4097 * d) by (nonlinear_arith);
        lemma_round_upper(m, d, 2048, true);
    }
}

/// The binary16 pattern nearest to the magnitude of a binary32 pattern
/// without sign.
fn narrow_magnitude(low: u32) -> (h: u16)
    requires
        low < SIGN_BIT,
    ensures
        h < 0x8000,
        narrows_to(low, h),
{
    let xf: u32 = low / 0x80_0000;
    let frac: u32 = low % 0x80_0000;
    assert(exponent_field(low) == xf);
    proof {
        lemma2_to64();
    }
    if xf == 255 {
        if frac == 0 {
            proof {
                lemma_pow2_adds(23, 254);
                lemma_pow2_adds(10, 267);
                lemma_pow2_pos(267);
                lemma_round_exact(1024, pow2(267), true);
                lemma_pow2_adds(10, 142);
                lemma_pow2_monotonic(40, 152);
                assert(magnitude(low) == 0x80_0000 * pow2(254));
                assert(half_steps(low) == 1024);
            }
            0x7C00
        } else {
            let top: u32 = frac / 0x2000;
            let h: u16 = if top >= 0x200 { (0x7C00 + top) as u16 } else { (0x7E00 + top) as u16 };
            assert(h / 0x400 == 31);
            h
        }
    } else {
        let s: u32 = if xf <= 113 { 0 } else { xf - 113 };
        let q: u32 = round_scaled(low, s + 125, true);
        proof {
            lemma_half_steps_bounds(low);
        }
        let hv: u32 = s * 1024 + q;
        if hv >= 0x7C00 {
            proof {
                lemma_pow2_adds(11, 29);
                lemma_pow2_adds(10, 30);
                if s >= 30 {
                    lemma_pow2_monotonic(30, s as nat);
                    assert(q * pow2(s as nat) >= 1024 * pow2(30)) by (nonlinear_arith)
                        requires
                            q >= 1024,
                            pow2(s as nat) >= pow2(30),
                    ;
                } else {
                    assert(s == 29 && q == 2048);
                }
            }
            0x7C00
        } else {
            proof {
                lemma_half_pattern(s as nat, q as nat);
            }
            hv as u16
        }
    }
}

/// Converts a binary32 pattern to the binary16 pattern of the nearest
/// value, ties to even.
pub fn narrow(bits: u32) -> (h: u16)
    ensures
        narrows_to(bits, h),
{
    let low: u32 = bits % 0x8000_0000;
    let h: u16 = narrow_magnitude(low);
    proof {
        if bits >= SIGN_BIT {
            lemma_sign_bit(low);
            lemma_half_sign_bit(h);
        }
    }
    if bits >= 0x8000_0000 {
        h + 0x8000
    } else {
        h
    }
}

/// Setting the sign bit of a binary16 pattern changes neither field nor the
/// magnitude.
pub proof fn lemma_half_sign_bit(low: u16)
    requires
        low < 0x8000,
    ensures
        half_exponent_field((low + 0x8000) as u16) == half_exponent_field(low),
        half_fraction((low + 0x8000) as u16) == half_fraction(low),
        half_magnitude((low + 0x8000) as u16) == half_magnitude(low),
{
    let h = (low + 0x8000) as u16;
    assert(h / 0x400 == low / 0x400 + 32);
    assert(h % 0x400 == low % 0x400);
}

/// The pattern of the non-negative binary16 value `n * 2^t` in units of
/// 2^-24, for a value of no more than nine significant bits below `2^16`.
pub fn exact_half(n: u16, t: u16) -> (h: u16)
    requires
        n < 512,
        t <= 31,
    ensures
        h < HALF_INFINITY_BITS,
        half_magnitude(h) == n * pow2(t as nat),
{
    let mut sig: u16 = n;
    let mut ex: u16 = t;
    let ghost mut k: nat = 0;
    proof {
        lemma2_to64();
    }
    while sig < 0x400 && ex > 0
        invariant
            sig * pow2(ex as nat) == n * pow2(t as nat),
            sig == n * pow2(k),
            ex + k == t,
            sig < 0x800,
            n < 512,
            t <= 31,
        decreases ex,
    {
        proof {
            lemma_shift_product(sig as nat, ex as nat);
            lemma_shift_product(n as nat, k + 1);
            assert(2 * (n * pow2(k)) == (2 * n) * pow2(k)) by (nonlinear_arith);
            assert(pow2(((k + 1) - 1) as nat) == pow2(k));
        }
        sig = sig * 2;
        ex = ex - 1;
        proof {
            k = k + 1;
        }
    }
    if sig < 0x400 {
        assert(sig * pow2(0) == sig);
        sig
    } else {
        proof {
            if k < 2 {
                assert(pow2(k) <= 2);
                assert(n * pow2(k) < 0x400) by (nonlinear_arith)
                    requires
                        n < 512,
                        pow2(k) <= 2,
                ;
            }
            assert(ex <= 29);
        }
        let h: u16 = (ex + 1) * 0x400 + (sig - 0x400);
        assert(h / 0x400 == ex + 1);
        assert(h % 0x400 == sig - 0x400);
        h
    }
}

} // verus!
