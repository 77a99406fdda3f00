//! Laws that relate packing, unpacking and repacking.
use crate::binary16::{
    half_exponent_field, half_is_negative, half_magnitude, half_step_exponent, half_steps,
    lemma_half_magnitude_names_pattern, narrows_to, HALF_INFINITY_BITS,
};
use crate::ieee::{
    exponent_field, fraction, lemma_magnitude_names_pattern, lemma_pow2_monotonic,
    lemma_pow2_times, lemma_product_below, magnitude, INFINITY_BITS,
};
use crate::rounding::{lemma_round_error, lemma_round_exact, round_half_even};
use crate::types::{RGB9E5, RGBA16F, RGBE8};
use vstd::arithmetic::power2::{lemma2_to64, lemma_pow2_adds, lemma_pow2_pos, lemma_pow2_unfold, pow2};
use vstd::prelude::*;

verus! {

/// The distance between two natural numbers.
pub open spec fn distance(a: nat, b: nat) -> nat {
    if a >= b {
        (a - b) as nat
    } else {
        (b - a) as nat
    }
}

/// A peak has one shared RGB9E5 exponent only.
pub proof fn lemma_rgb9e5_exponent_unique(peak: nat, e1: nat, e2: nat)
    requires
        RGB9E5::is_shared_exponent(peak, e1),
        RGB9E5::is_shared_exponent(peak, e2),
    ensures
        e1 == e2,
{
    if e1 < e2 {
        lemma_pow2_monotonic(e1 + 125, (e2 + 124) as nat);
    } else if e2 < e1 {
        lemma_pow2_monotonic(e2 + 125, (e1 + 124) as nat);
    }
}

/// Three channels have one RGB9E5 packing only.
pub proof fn lemma_rgb9e5_packing_unique(rgb: Seq<u32>, t1: RGB9E5, t2: RGB9E5)
    requires
        RGB9E5::packs(rgb, t1),
        RGB9E5::packs(rgb, t2),
    ensures
        t1 == t2,
{
    let peak = RGB9E5::peak(
        RGB9E5::clamped(rgb[0]),
        RGB9E5::clamped(rgb[1]),
        RGB9E5::clamped(rgb[2]),
    );
    lemma_rgb9e5_exponent_unique(peak, t1.exponent(), t2.exponent());
    lemma_rgb9e5_fields(t1);
    lemma_rgb9e5_fields(t2);
}

/// An RGB9E5 word is made of its four fields.
pub proof fn lemma_rgb9e5_fields(t: RGB9E5)
    ensures
        t.0 == t.exponent() * 0x800_0000 + t.blue() * 0x4_0000 + t.green() * 0x200 + t.red(),
        t.exponent() <= 31,
{
}

/// An RGB9E5 texel unpacks to one triple of patterns only.
pub proof fn lemma_rgb9e5_unpacking_unique(texel: RGB9E5, a: Seq<u32>, b: Seq<u32>)
    requires
        texel.unpacks_to(a),
        texel.unpacks_to(b),
    ensures
        a == b,
{
    assert forall|i: int| 0 <= i < 3 implies a[i] == b[i] by {
        lemma_magnitude_names_pattern(a[i], b[i]);
    }
    assert(a =~= b);
}

/// An RGBE8 texel unpacks to one triple of patterns only.
pub proof fn lemma_rgbe8_unpacking_unique(texel: RGBE8, a: Seq<u32>, b: Seq<u32>)
    requires
        texel.unpacks_to(a),
        texel.unpacks_to(b),
    ensures
        a == b,
{
    assert forall|i: int| 0 <= i < 3 implies a[i] == b[i] by {
        lemma_magnitude_names_pattern(a[i], b[i]);
    }
    assert(a =~= b);
}

/// Packing three channels as RGB9E5 and unpacking them again moves each
/// clamped channel by at most half a mantissa step of the texel's exponent,
/// `2^(e - 25)`, which is no more than a part in `2^9` of the largest channel
/// (`2 / 1023` of it). A channel in `[0, 511 * 2^7]` is its own clamped
/// value.
pub proof fn lemma_rgb9e5_round_trip(rgb: Seq<u32>, texel: RGB9E5, back: Seq<u32>)
    requires
        RGB9E5::packs(rgb, texel),
        texel.unpacks_to(back),
    ensures
        2 * distance(magnitude(back[0]), RGB9E5::clamped(rgb[0])) <= pow2(texel.exponent() + 125),
        2 * distance(magnitude(back[1]), RGB9E5::clamped(rgb[1])) <= pow2(texel.exponent() + 125),
        2 * distance(magnitude(back[2]), RGB9E5::clamped(rgb[2])) <= pow2(texel.exponent() + 125),
        1023 * pow2(texel.exponent() + 125) <= 4 * RGB9E5::peak(
            RGB9E5::clamped(rgb[0]),
            RGB9E5::clamped(rgb[1]),
            RGB9E5::clamped(rgb[2]),
        ),
{
    let e = texel.exponent();
    let d = pow2(e + 125);
    lemma_pow2_pos(e + 125);
    lemma_round_error(RGB9E5::clamped(rgb[0]), d, true);
    lemma_round_error(RGB9E5::clamped(rgb[1]), d, true);
    lemma_round_error(RGB9E5::clamped(rgb[2]), d, true);
    if e > 0 {
        lemma_pow2_unfold(e + 125);
    } else {
        lemma2_to64();
        lemma_pow2_adds(8, 125);
    }
}

/// A peak has one shared RGBE8 exponent only.
pub proof fn lemma_rgbe8_exponent_unique(peak: nat, e1: nat, e2: nat)
    requires
        RGBE8::is_shared_exponent(peak, e1),
        RGBE8::is_shared_exponent(peak, e2),
    ensures
        e1 == e2,
{
    if e1 < e2 {
        lemma_pow2_monotonic(e1 + 13, e2 + 12);
    } else if e2 < e1 {
        lemma_pow2_monotonic(e2 + 13, e1 + 12);
    }
}

/// Three channels have one RGBE8 packing only.
pub proof fn lemma_rgbe8_packing_unique(rgb: Seq<u32>, t1: RGBE8, t2: RGBE8)
    requires
        RGBE8::packs(rgb, t1),
        RGBE8::packs(rgb, t2),
    ensures
        t1 == t2,
{
    let peak = RGBE8::peak(
        RGBE8::positive_part(rgb[0]),
        RGBE8::positive_part(rgb[1]),
        RGBE8::positive_part(rgb[2]),
    );
    if peak < 511 * pow2(267) {
        lemma_rgbe8_exponent_unique(peak, t1.e as nat, t2.e as nat);
    }
}

/// Where the largest channel lies below `(2 - 2^-8) * 2^126`, so that a
/// scale exists for it, packing three channels as RGBE8 and unpacking them
/// again moves each channel (a negative one or a NaN counted as zero) by at
/// most half a mantissa step of the texel's exponent, `2^(e - 137)`, which
/// is no more than a part in `2^8` of the largest channel (`2 / 511` of it).
pub proof fn lemma_rgbe8_round_trip(rgb: Seq<u32>, texel: RGBE8, back: Seq<u32>)
    requires
        RGBE8::packs(rgb, texel),
        texel.unpacks_to(back),
        RGBE8::peak(
            RGBE8::positive_part(rgb[0]),
            RGBE8::positive_part(rgb[1]),
            RGBE8::positive_part(rgb[2]),
        ) < 511 * pow2(267),
    ensures
        2 * distance(magnitude(back[0]), RGBE8::positive_part(rgb[0])) <= pow2(
            (texel.e + 13) as nat,
        ),
        2 * distance(magnitude(back[1]), RGBE8::positive_part(rgb[1])) <= pow2(
            (texel.e + 13) as nat,
        ),
        2 * distance(magnitude(back[2]), RGBE8::positive_part(rgb[2])) <= pow2(
            (texel.e + 13) as nat,
        ),
        511 * pow2((texel.e + 13) as nat) <= 4 * RGBE8::peak(
            RGBE8::positive_part(rgb[0]),
            RGBE8::positive_part(rgb[1]),
            RGBE8::positive_part(rgb[2]),
        ),
{
    let d = pow2((texel.e + 13) as nat);
    lemma_pow2_pos((texel.e + 13) as nat);
    lemma_round_error(RGBE8::positive_part(rgb[0]), d, false);
    lemma_round_error(RGBE8::positive_part(rgb[1]), d, false);
    lemma_round_error(RGBE8::positive_part(rgb[2]), d, false);
    lemma_pow2_unfold((texel.e + 13) as nat);
}

/// One channel of a texel whose exponent RGB9E5 can hold: its value is the
/// doubled mantissa in steps of the RGB9E5 exponent, and is not saturated.
proof fn lemma_direct_channel(c: u8, e: u8)
    requires
        113 <= e <= 143,
    ensures
        c as nat * pow2((e + 13) as nat) == (2 * c) as nat * pow2((e + 12) as nat),
        RGB9E5::saturate(c as nat * pow2((e + 13) as nat)) == c as nat * pow2((e + 13) as nat),
        round_half_even(c as nat * pow2((e + 13) as nat), pow2((e + 12) as nat)) == 2 * c,
        c as nat * pow2((e + 13) as nat) <= 510 * pow2((e + 12) as nat),
        c >= 128 ==> c as nat * pow2((e + 13) as nat) >= 256 * pow2((e + 12) as nat),
{
    let d = pow2((e + 12) as nat);
    lemma_pow2_pos((e + 12) as nat);
    lemma_pow2_unfold((e + 13) as nat);
    lemma_pow2_monotonic((e + 13) as nat, 156);
    assert(c as nat * (2 * d) == (2 * c) as nat * d) by (nonlinear_arith);
    assert(c as nat * pow2((e + 13) as nat) <= 255 * pow2(156)) by (nonlinear_arith)
        requires
            c <= 255,
            pow2((e + 13) as nat) <= pow2(156),
    ;
    lemma_round_exact((2 * c) as nat, d, true);
    assert((2 * c) as nat * d <= 510 * d) by (nonlinear_arith)
        requires
            c <= 255,
            d > 0,
    ;
    if c >= 128 {
        assert((2 * c) as nat * d >= 256 * d) by (nonlinear_arith)
            requires
                c >= 128,
                d > 0,
        ;
    }
}

/// Where the exponent of an RGBE8 texel lies in the range of RGB9E5 and the
/// texel is normalised (a mantissa has its top bit set) or has the lowest
/// such exponent, moving the mantissas over gives bit for bit what unpacking
/// and packing anew gives.
pub proof fn lemma_direct_repack_is_pack(v: RGBE8, rgb: Seq<u32>, texel: RGB9E5)
    requires
        v.has_direct_repack(),
        v.r >= 128 || v.g >= 128 || v.b >= 128 || v.e == 113,
        v.unpacks_to(rgb),
        RGB9E5::packs(rgb, texel),
    ensures
        texel == v.direct_repack(),
{
    let e = (v.e - 113) as nat;
    let d = pow2(e + 125);
    lemma_direct_channel(v.r, v.e);
    lemma_direct_channel(v.g, v.e);
    lemma_direct_channel(v.b, v.e);
    assert(forall|i: int| 0 <= i < 3 ==> exponent_field(#[trigger] rgb[i]) < 255);
    assert(RGB9E5::clamped(rgb[0]) == v.red_value());
    assert(RGB9E5::clamped(rgb[1]) == v.green_value());
    assert(RGB9E5::clamped(rgb[2]) == v.blue_value());
    let peak = RGB9E5::peak(v.red_value(), v.green_value(), v.blue_value());
    lemma2_to64();
    lemma_pow2_pos(e + 125);
    lemma_pow2_adds(8, 125);
    lemma_pow2_monotonic(125, e + 125);
    assert(pow2(133) <= 256 * d);
    assert(256 * d <= peak || e == 0);
    assert(peak <= 510 * d);
    if e > 0 {
        lemma_pow2_unfold(e + 125);
    }
    assert(RGB9E5::is_shared_exponent(peak, e));
    lemma_rgb9e5_exponent_unique(peak, e, texel.exponent());
    lemma_rgb9e5_fields(texel);
}

/// Where the exponent of an RGBE8 texel lies in the range of RGB9E5 above
/// its lowest and no mantissa has its top bit set, unpacking and packing
/// anew normalises the texel under a smaller exponent, so that its bits
/// differ from those of the mantissas moved over.
pub proof fn lemma_direct_repack_of_unnormalised_differs(
    v: RGBE8,
    rgb: Seq<u32>,
    texel: RGB9E5,
)
    requires
        v.has_direct_repack(),
        v.r < 128 && v.g < 128 && v.b < 128,
        v.e > 113,
        v.unpacks_to(rgb),
        RGB9E5::packs(rgb, texel),
    ensures
        texel.exponent() < v.direct_repack().exponent(),
        texel != v.direct_repack(),
{
    let e = (v.e - 113) as nat;
    let d = pow2(e + 125);
    let t = v.direct_repack();
    assert(t.0 == (v.e - 113) * 0x800_0000 + v.b * 0x8_0000 + v.g * 0x400 + v.r * 2);
    assert(t.exponent() == e);
    lemma_direct_channel(v.r, v.e);
    lemma_direct_channel(v.g, v.e);
    lemma_direct_channel(v.b, v.e);
    assert(forall|i: int| 0 <= i < 3 ==> exponent_field(#[trigger] rgb[i]) < 255);
    assert(RGB9E5::clamped(rgb[0]) == v.red_value());
    assert(RGB9E5::clamped(rgb[1]) == v.green_value());
    assert(RGB9E5::clamped(rgb[2]) == v.blue_value());
    let peak = RGB9E5::peak(v.red_value(), v.green_value(), v.blue_value());
    lemma2_to64();
    lemma_pow2_pos(e + 125);
    lemma_pow2_adds(8, 125);
    lemma_pow2_unfold(e + 125);
    lemma_pow2_monotonic(126, e + 125);
    lemma_pow2_unfold(126);
    assert((2 * v.r) as nat * d <= 254 * d) by (nonlinear_arith)
        requires
            v.r <= 127,
            d > 0,
    ;
    assert((2 * v.g) as nat * d <= 254 * d) by (nonlinear_arith)
        requires
            v.g <= 127,
            d > 0,
    ;
    assert((2 * v.b) as nat * d <= 254 * d) by (nonlinear_arith)
        requires
            v.b <= 127,
            d > 0,
    ;
    assert(pow2(133) <= 128 * d);
    assert(peak <= 254 * d);
    if texel.exponent() >= e {
        lemma_pow2_monotonic(e + 124, (texel.exponent() + 124) as nat);
    }
}

/// Moving the mantissas over keeps the value of every channel.
pub proof fn lemma_direct_repack_keeps_values(v: RGBE8)
    requires
        v.has_direct_repack(),
    ensures
        v.direct_repack().red_value() == v.red_value(),
        v.direct_repack().green_value() == v.green_value(),
        v.direct_repack().blue_value() == v.blue_value(),
{
    let t = v.direct_repack();
    assert(t.0 == (v.e - 113) * 0x800_0000 + v.b * 0x8_0000 + v.g * 0x400 + v.r * 2);
    assert(t.exponent() == v.e - 113);
    assert(t.red() == 2 * v.r);
    assert(t.green() == 2 * v.g);
    assert(t.blue() == 2 * v.b);
    lemma_direct_channel(v.r, v.e);
    lemma_direct_channel(v.g, v.e);
    lemma_direct_channel(v.b, v.e);
}

/// A channel that is a whole number of steps of a larger exponent is encoded
/// without loss under a smaller one.
proof fn lemma_finer_step_is_exact(c: nat, hi: nat, lo: nat)
    requires
        lo <= hi,
    ensures
        round_half_even(c * pow2(hi), pow2(lo)) * pow2(lo) == c * pow2(hi),
{
    let k = pow2((hi - lo) as nat);
    lemma_pow2_adds((hi - lo) as nat, lo);
    lemma_pow2_pos(lo);
    assert(c * (k * pow2(lo)) == (c * k) * pow2(lo)) by (nonlinear_arith);
    lemma_round_exact(c * k, pow2(lo), true);
}

/// Where the exponent of an RGBE8 texel lies in the range of RGB9E5,
/// unpacking and packing anew gives a texel with the same channel values as
/// moving the mantissas over, which are the values of the RGBE8 texel: the
/// two ways differ at most in how they split a value into mantissa and
/// exponent.
pub proof fn lemma_repack_paths_agree_in_value(v: RGBE8, rgb: Seq<u32>, texel: RGB9E5)
    requires
        v.has_direct_repack(),
        v.unpacks_to(rgb),
        RGB9E5::packs(rgb, texel),
    ensures
        texel.red_value() == v.red_value(),
        texel.green_value() == v.green_value(),
        texel.blue_value() == v.blue_value(),
        texel.red_value() == v.direct_repack().red_value(),
        texel.green_value() == v.direct_repack().green_value(),
        texel.blue_value() == v.direct_repack().blue_value(),
{
    lemma_direct_repack_keeps_values(v);
    let hi = (v.e + 13) as nat;
    let lo = texel.exponent() + 125;
    lemma_direct_channel(v.r, v.e);
    lemma_direct_channel(v.g, v.e);
    lemma_direct_channel(v.b, v.e);
    assert(forall|i: int| 0 <= i < 3 ==> exponent_field(#[trigger] rgb[i]) < 255);
    assert(RGB9E5::clamped(rgb[0]) == v.red_value());
    assert(RGB9E5::clamped(rgb[1]) == v.green_value());
    assert(RGB9E5::clamped(rgb[2]) == v.blue_value());
    let peak = RGB9E5::peak(v.red_value(), v.green_value(), v.blue_value());
    let d = pow2((v.e + 12) as nat);
    lemma2_to64();
    lemma_pow2_pos((v.e + 12) as nat);
    lemma_pow2_adds(8, 125);
    lemma_pow2_monotonic(125, (v.e + 12) as nat);
    assert(peak <= 510 * d);
    if lo > hi {
        lemma_pow2_monotonic(hi, (lo - 1) as nat);
        lemma_pow2_unfold(hi);
    }
    assert(lo <= hi);
    lemma_finer_step_is_exact(v.r as nat, hi, lo);
    lemma_finer_step_is_exact(v.g as nat, hi, lo);
    lemma_finer_step_is_exact(v.b as nat, hi, lo);
}

/// A value of nine significant bits in steps of `2^(e - 24)`, as RGB9E5
/// holds it, is a binary16 value: narrowing its binary32 pattern rounds
/// nothing away.
pub proof fn lemma_channel_narrows_exactly(m: nat, e: nat, bits: u32, h: u16)
    requires
        m < 512,
        e <= 31,
        bits < INFINITY_BITS,
        magnitude(bits) == m * pow2(e + 125),
        narrows_to(bits, h),
    ensures
        !half_is_negative(h),
        half_exponent_field(h) < 31,
        half_magnitude(h) == m * pow2(e),
{
    let xf = exponent_field(bits);
    let f = fraction(bits);
    assert(xf == bits / 0x80_0000);
    let s = half_step_exponent(bits);
    lemma2_to64();
    lemma_product_below(m, 9, e + 125);
    if s > e {
        let p = pow2((xf - 1) as nat);
        lemma_pow2_pos((xf - 1) as nat);
        lemma_pow2_adds(23, (xf - 1) as nat);
        lemma_pow2_monotonic(e + 134, xf + 22);
        assert((0x80_0000 + f) * p >= 0x80_0000 * p) by (nonlinear_arith)
            requires
                f >= 0,
                p > 0,
        ;
    }
    assert(s <= e);
    let k = pow2((e - s) as nat);
    lemma_pow2_adds((e - s) as nat, s + 125);
    lemma_pow2_adds((e - s) as nat, s);
    lemma_pow2_pos(s + 125);
    assert(m * (k * pow2(s + 125)) == (m * k) * pow2(s + 125)) by (nonlinear_arith);
    assert(m * (k * pow2(s)) == (m * k) * pow2(s)) by (nonlinear_arith);
    lemma_round_exact(m * k, pow2(s + 125), true);
    assert(half_steps(bits) == m * k);
    lemma_product_below(m, 9, e);
    lemma_pow2_monotonic(9 + e, 40);
}

/// Rounding the unpacked channels of an RGB9E5 texel to binary16 loses
/// nothing: each binary16 channel is non-negative and finite and has exactly
/// the value of the RGB9E5 channel, `mantissa * 2^(e - 24)`.
pub proof fn lemma_rgb9e5_survives_narrowing(texel: RGB9E5, rgb: Seq<u32>, out: RGBA16F)
    requires
        texel.unpacks_to(rgb),
        narrows_to(rgb[0], out.r),
        narrows_to(rgb[1], out.g),
        narrows_to(rgb[2], out.b),
    ensures
        out.r < HALF_INFINITY_BITS && out.g < HALF_INFINITY_BITS && out.b < HALF_INFINITY_BITS,
        half_magnitude(out.r) == texel.red() * pow2(texel.exponent()),
        half_magnitude(out.g) == texel.green() * pow2(texel.exponent()),
        half_magnitude(out.b) == texel.blue() * pow2(texel.exponent()),
        RGBA16F::channel_value(out.r) == texel.red_value(),
        RGBA16F::channel_value(out.g) == texel.green_value(),
        RGBA16F::channel_value(out.b) == texel.blue_value(),
{
    let e = texel.exponent();
    lemma_rgb9e5_fields(texel);
    lemma_channel_narrows_exactly(texel.red(), e, rgb[0], out.r);
    lemma_channel_narrows_exactly(texel.green(), e, rgb[1], out.g);
    lemma_channel_narrows_exactly(texel.blue(), e, rgb[2], out.b);
    lemma_pow2_times(texel.red(), e, 125);
    lemma_pow2_times(texel.green(), e, 125);
    lemma_pow2_times(texel.blue(), e, 125);
}

/// The conversion of an RGB9E5 texel to RGBA16F gives the channels that
/// unpacking and rounding to binary16 gives.
pub proof fn lemma_from_rgb9e5_is_narrowing(
    texel: RGB9E5,
    rgb: Seq<u32>,
    narrowed: RGBA16F,
    direct: RGBA16F,
)
    requires
        texel.unpacks_to(rgb),
        narrows_to(rgb[0], narrowed.r),
        narrows_to(rgb[1], narrowed.g),
        narrows_to(rgb[2], narrowed.b),
        direct.r < HALF_INFINITY_BITS && direct.g < HALF_INFINITY_BITS && direct.b
            < HALF_INFINITY_BITS,
        half_magnitude(direct.r) == texel.red() * pow2(texel.exponent()),
        half_magnitude(direct.g) == texel.green() * pow2(texel.exponent()),
        half_magnitude(direct.b) == texel.blue() * pow2(texel.exponent()),
    ensures
        narrowed.r == direct.r,
        narrowed.g == direct.g,
        narrowed.b == direct.b,
{
    lemma_rgb9e5_survives_narrowing(texel, rgb, narrowed);
    lemma_half_magnitude_names_pattern(narrowed.r, direct.r);
    lemma_half_magnitude_names_pattern(narrowed.g, direct.g);
    lemma_half_magnitude_names_pattern(narrowed.b, direct.b);
}

} // verus!
