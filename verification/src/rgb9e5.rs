//! Packing binary32 channels into an RGB9E5 texel, and unpacking them.
use crate::ieee::{
    exact_bits, exponent_field, fraction, is_nan, is_negative, lemma_magnitude_order,
    lemma_pow2_monotonic, lemma_pow2_times, lemma_product_below, magnitude, round_scaled,
    INFINITY_BITS, SIGN_BIT,
};
use crate::rounding::{lemma_round_upper, round_half_even};
use crate::types::RGB9E5;
use vstd::arithmetic::power2::{lemma2_to64, lemma_pow2_adds, lemma_pow2_pos, pow2};
use vstd::prelude::*;

verus! {

/// The pattern of `511 * 2^7`, the largest value a channel can hold.
pub const MAX_CHANNEL_BITS: u32 = 0x477F_8000;

/// The pattern of `2^-16`, below which the largest channel is not taken to
/// choose the exponent.
pub const MIN_PEAK_BITS: u32 = 0x3780_0000;

/// The larger of two numbers.
pub open spec fn larger(a: nat, b: nat) -> nat {
    if a >= b {
        a
    } else {
        b
    }
}

/// The larger of two patterns without sign bit denotes the larger magnitude.
pub proof fn lemma_larger_pattern(a: u32, b: u32)
    requires
        a < SIGN_BIT,
        b < SIGN_BIT,
    ensures
        magnitude(if a > b { a } else { b }) == larger(magnitude(a), magnitude(b)),
{
    if a > b {
        lemma_magnitude_order(b, a);
    } else if a < b {
        lemma_magnitude_order(a, b);
    }
}

/// The magnitudes of the two patterns that bound the packing.
pub proof fn lemma_bounds_magnitude()
    ensures
        magnitude(MAX_CHANNEL_BITS) == 511 * pow2(156),
        magnitude(MIN_PEAK_BITS) == pow2(133),
{
    lemma2_to64();
    assert(exponent_field(MAX_CHANNEL_BITS) == 142 && fraction(MAX_CHANNEL_BITS) == 0x7F_8000);
    assert(exponent_field(MIN_PEAK_BITS) == 111 && fraction(MIN_PEAK_BITS) == 0);
    lemma_pow2_times(511, 15, 141);
    lemma_pow2_adds(23, 110);
}

impl RGB9E5 {
    /// The largest magnitude a channel can hold, `511 * 2^7`, in units of
    /// 2^-149.
    pub open spec fn max_magnitude() -> nat {
        511 * pow2(156)
    }

    /// A magnitude limited to the largest that a channel can hold.
    pub open spec fn saturate(m: nat) -> nat {
        if m > Self::max_magnitude() {
            Self::max_magnitude()
        } else {
            m
        }
    }

    /// A channel clamped to `[0, 511 * 2^7]`, in units of 2^-149. A negative
    /// value, a negative zero and a NaN count as zero.
    pub open spec fn clamped(bits: u32) -> nat {
        if is_negative(bits) || is_nan(bits) {
            0
        } else {
            Self::saturate(magnitude(bits))
        }
    }

    /// The largest of three clamped channels, and at least `2^-16`, in units
    /// of 2^-149.
    pub open spec fn peak(r: nat, g: nat, b: nat) -> nat {
        larger(larger(larger(pow2(133), r), g), b)
    }

    /// Whether `e` is the exponent field for a largest channel `peak`: the
    /// smallest field under which the peak, rounded to a mantissa, stays
    /// below 512. A mantissa counts `2^(e - 24)`, that is `2^(e + 125)` units.
    pub open spec fn is_shared_exponent(peak: nat, e: nat) -> bool {
        &&& e <= 31
        &&& 2 * peak < 1023 * pow2(e + 125)
        &&& e > 0 ==> 2 * peak >= 1023 * pow2((e + 124) as nat)
    }

    /// Whether `texel` encodes three clamped channels given in units of
    /// 2^-149: the exponent is the shared one of their peak, and each
    /// mantissa is the channel in steps of `2^(e - 24)`, rounded to nearest,
    /// ties to even.
    pub open spec fn encodes(r: nat, g: nat, b: nat, texel: RGB9E5) -> bool {
        let e = texel.exponent();
        &&& Self::is_shared_exponent(Self::peak(r, g, b), e)
        &&& texel.red() == round_half_even(r, pow2(e + 125))
        &&& texel.green() == round_half_even(g, pow2(e + 125))
        &&& texel.blue() == round_half_even(b, pow2(e + 125))
    }

    /// Whether `texel` is the packing of three binary32 patterns.
    pub open spec fn packs(rgb: Seq<u32>, texel: RGB9E5) -> bool {
        Self::encodes(
            Self::clamped(rgb[0]),
            Self::clamped(rgb[1]),
            Self::clamped(rgb[2]),
            texel,
        )
    }

    /// The red channel's value in units of 2^-149.
    pub open spec fn red_value(self) -> nat {
        self.red() * pow2(self.exponent() + 125)
    }

    /// The green channel's value in units of 2^-149.
    pub open spec fn green_value(self) -> nat {
        self.green() * pow2(self.exponent() + 125)
    }

    /// The blue channel's value in units of 2^-149.
    pub open spec fn blue_value(self) -> nat {
        self.blue() * pow2(self.exponent() + 125)
    }

    /// Whether three binary32 patterns are the exact values of the texel's
    /// channels, as non-negative patterns.
    pub open spec fn unpacks_to(self, rgb: Seq<u32>) -> bool {
        &&& rgb.len() == 3
        &&& forall|i: int| 0 <= i < 3 ==> rgb[i] < INFINITY_BITS
        &&& magnitude(rgb[0]) == self.red_value()
        &&& magnitude(rgb[1]) == self.green_value()
        &&& magnitude(rgb[2]) == self.blue_value()
    }

    /// The exponent field that the bit pattern of the peak gives: its own
    /// exponent, one more where its ten leading significand bits are all set.
    pub open spec fn exponent_of(peak_bits: u32) -> nat {
        if fraction(peak_bits) >= 0x7F_C000 {
            (exponent_field(peak_bits) - 110) as nat
        } else {
            (exponent_field(peak_bits) - 111) as nat
        }
    }

    /// The exponent read off the peak's pattern is the shared exponent of its
    /// magnitude.
    pub proof fn lemma_exponent_of(peak_bits: u32)
        requires
            MIN_PEAK_BITS <= peak_bits <= MAX_CHANNEL_BITS,
        ensures
            Self::is_shared_exponent(magnitude(peak_bits), Self::exponent_of(peak_bits)),
    {
        let x = exponent_field(peak_bits);
        let f = fraction(peak_bits);
        assert(x == peak_bits / 0x80_0000);
        assert(111 <= x <= 142);
        assert(x == 142 ==> f <= 0x7F_8000);
        let p = pow2((x - 1) as nat);
        lemma_pow2_pos((x - 1) as nat);
        lemma2_to64();
        lemma_pow2_adds((x - 1) as nat, 14);
        lemma_pow2_adds((x - 1) as nat, 15);
        lemma_pow2_adds((x - 1) as nat, 16);
        let m = magnitude(peak_bits);
        assert(m == (0x80_0000 + f) * p);
        if f >= 0x7F_C000 {
            assert(2 * ((0x80_0000 + f) * p) < 1023 * (p * 65536)) by (nonlinear_arith)
                requires
                    f < 0x80_0000,
                    p > 0,
            ;
            assert(2 * ((0x80_0000 + f) * p) >= 1023 * (p * 32768)) by (nonlinear_arith)
                requires
                    f >= 0x7F_C000,
                    p > 0,
            ;
        } else {
            assert(2 * ((0x80_0000 + f) * p) < 1023 * (p * 32768)) by (nonlinear_arith)
                requires
                    f < 0x7F_C000,
                    p > 0,
            ;
            assert(2 * ((0x80_0000 + f) * p) >= 1023 * (p * 16384)) by (nonlinear_arith)
                requires
                    f >= 0,
                    p > 0,
            ;
        }
    }

    /// Clamps one channel: the pattern of the clamped value.
    fn clamp_channel(bits: u32) -> (c: u32)
        ensures
            c <= MAX_CHANNEL_BITS,
            magnitude(c) == Self::clamped(bits),
    {
        proof {
            lemma_bounds_magnitude();
        }
        if bits >= SIGN_BIT || bits > INFINITY_BITS {
            assert(magnitude(0) == 0);
            0
        } else if bits > MAX_CHANNEL_BITS {
            proof {
                lemma_magnitude_order(MAX_CHANNEL_BITS, bits);
            }
            MAX_CHANNEL_BITS
        } else {
            proof {
                if bits < MAX_CHANNEL_BITS {
                    lemma_magnitude_order(bits, MAX_CHANNEL_BITS);
                }
            }
            bits
        }
    }

    /// One mantissa: the clamped channel in steps of `2^(e - 24)`.
    fn mantissa(c: u32, peak_bits: u32, e: u32) -> (m: u32)
        requires
            c <= peak_bits,
            MIN_PEAK_BITS <= peak_bits <= MAX_CHANNEL_BITS,
            e == Self::exponent_of(peak_bits),
        ensures
            m == round_half_even(magnitude(c), pow2((e + 125) as nat)),
            m <= 511,
    {
        proof {
            Self::lemma_exponent_of(peak_bits);
            if c < peak_bits {
                lemma_magnitude_order(c, peak_bits);
            }
            assert(exponent_field(c) == c / 0x80_0000);
            assert(exponent_field(peak_bits) == peak_bits / 0x80_0000);
            lemma_pow2_pos((e + 125) as nat);
            lemma_round_upper(magnitude(c), pow2((e + 125) as nat), 511, true);
        }
        round_scaled(c, e + 125, true)
    }

    /// The pattern of the largest of three clamped channels and `2^-16`.
    fn peak_bits(r: u32, g: u32, b: u32) -> (m: u32)
        requires
            r <= MAX_CHANNEL_BITS,
            g <= MAX_CHANNEL_BITS,
            b <= MAX_CHANNEL_BITS,
        ensures
            MIN_PEAK_BITS <= m <= MAX_CHANNEL_BITS,
            r <= m && g <= m && b <= m,
            magnitude(m) == Self::peak(magnitude(r), magnitude(g), magnitude(b)),
    {
        let m0: u32 = if MIN_PEAK_BITS > r { MIN_PEAK_BITS } else { r };
        let m1: u32 = if m0 > g { m0 } else { g };
        let m: u32 = if m1 > b { m1 } else { b };
        proof {
            lemma_bounds_magnitude();
            lemma_larger_pattern(MIN_PEAK_BITS, r);
            lemma_larger_pattern(m0, g);
            lemma_larger_pattern(m1, b);
        }
        m
    }

    /// The exponent field for a peak, read off its pattern.
    fn shared_exponent(peak_bits: u32) -> (e: u32)
        requires
            MIN_PEAK_BITS <= peak_bits <= MAX_CHANNEL_BITS,
        ensures
            e == Self::exponent_of(peak_bits),
            Self::is_shared_exponent(magnitude(peak_bits), e as nat),
    {
        proof {
            Self::lemma_exponent_of(peak_bits);
        }
        let x: u32 = peak_bits / 0x80_0000;
        if peak_bits % 0x80_0000 >= 0x7F_C000 {
            x - 110
        } else {
            x - 111
        }
    }

    /// The texel with the given fields.
    pub fn from_fields(red: u32, green: u32, blue: u32, exponent: u32) -> (texel: RGB9E5)
        requires
            red <= 511,
            green <= 511,
            blue <= 511,
            exponent <= 31,
        ensures
            texel.red() == red,
            texel.green() == green,
            texel.blue() == blue,
            texel.exponent() == exponent,
            texel.0 == exponent * 0x800_0000 + blue * 0x4_0000 + green * 0x200 + red,
    {
        RGB9E5(exponent * 0x800_0000 + blue * 0x4_0000 + green * 0x200 + red)
    }

    /// Clamps three binary32 channels into `[0, 511 * 2^7]` and packs them
    /// under the exponent that their largest calls for. Every pattern is
    /// taken: a negative value and a NaN pack as zero, infinity as the
    /// largest value.
    pub fn pack(rgb: [u32; 3]) -> (texel: RGB9E5)
        ensures
            Self::packs(rgb@, texel),
    {
        let r = Self::clamp_channel(rgb[0]);
        let g = Self::clamp_channel(rgb[1]);
        let b = Self::clamp_channel(rgb[2]);
        let m = Self::peak_bits(r, g, b);
        let e = Self::shared_exponent(m);
        let rm = Self::mantissa(r, m, e);
        let gm = Self::mantissa(g, m, e);
        let bm = Self::mantissa(b, m, e);
        Self::from_fields(rm, gm, bm, e)
    }

    /// The three channels as binary32 patterns. Each is exactly
    /// `mantissa / 512 * 2^(exponent - 15)`, that is
    /// `mantissa * 2^(exponent + 125)` in units of 2^-149.
    pub fn unpack(self) -> (rgb: [u32; 3])
        ensures
            self.unpacks_to(rgb@),
    {
        let t: u32 = self.0 / 0x800_0000 + 125;
        proof {
            lemma2_to64();
            lemma_pow2_monotonic((9 + t) as nat, 277);
            lemma_product_below(self.red(), 9, t as nat);
            lemma_product_below(self.green(), 9, t as nat);
            lemma_product_below(self.blue(), 9, t as nat);
        }
        let r = exact_bits(self.0 % 512, t);
        let g = exact_bits(self.0 / 0x200 % 512, t);
        let b = exact_bits(self.0 / 0x4_0000 % 512, t);
        [r, g, b]
    }
}

} // verus!
