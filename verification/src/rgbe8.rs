//! Packing binary32 channels into an RGBE8 texel, unpacking them, and
//! repacking a texel as RGB9E5.
use crate::ieee::{
    exact_bits, exponent_field, fraction, is_nan, is_negative, lemma_magnitude_order,
    lemma_pow2_monotonic, lemma_product_below, magnitude, round_scaled, INFINITY_BITS, SIGN_BIT,
};
use crate::rgb9e5::{larger, lemma_larger_pattern};
use crate::rounding::{lemma_round_upper, round_half_up};
use crate::types::{RGB9E5, RGBE8};
use vstd::arithmetic::power2::{lemma2_to64, lemma_pow2_adds, lemma_pow2_pos, pow2};
use vstd::prelude::*;

verus! {

/// The pattern of `2^-126`, the smallest positive normal value, below which
/// the largest channel is not taken to choose the exponent.
pub const MIN_NORMAL_BITS: u32 = 0x0080_0000;

impl RGBE8 {
    /// A channel as the packing reads it, in units of 2^-149: a negative
    /// value, a negative zero and a NaN count as zero, infinity as `2^128`.
    pub open spec fn positive_part(bits: u32) -> nat {
        if is_negative(bits) || is_nan(bits) {
            0
        } else {
            magnitude(bits)
        }
    }

    /// The largest of three channels, and at least `2^-126`, in units of
    /// 2^-149.
    pub open spec fn peak(r: nat, g: nat, b: nat) -> nat {
        larger(larger(larger(pow2(23), r), g), b)
    }

    /// Whether `e` is the exponent byte for a largest channel `peak`: the one
    /// under which the peak, rounded to a mantissa, lies from 128 to 255. A
    /// mantissa counts `2^(e - 136)`, that is `2^(e + 13)` units.
    pub open spec fn is_shared_exponent(peak: nat, e: nat) -> bool {
        &&& 2 * peak < 511 * pow2(e + 13)
        &&& 2 * peak >= 511 * pow2(e + 12)
    }

    /// The mantissa that a channel gets where the peak is too large for any
    /// scale: all bits set for a positive channel, none for zero.
    pub open spec fn flooded(c: nat) -> u8 {
        if c > 0 {
            255
        } else {
            0
        }
    }

    /// Whether `texel` encodes three channels given in units of 2^-149.
    ///
    /// Up to a peak of `(2 - 2^-8) * 2^126` the exponent is the shared one of
    /// the peak and each mantissa is the channel in steps of `2^(e - 136)`,
    /// rounded to nearest, ties upwards. Above that the scale would be
    /// `2^128`, which binary32 holds as infinity: all mantissas are zero
    /// under the exponent 255. From `(2 - 2^-8) * 2^127` on the scale wraps
    /// to zero: the exponent is 1 and every positive channel is 255.
    pub open spec fn encodes(r: nat, g: nat, b: nat, texel: RGBE8) -> bool {
        let peak = Self::peak(r, g, b);
        if peak < 511 * pow2(267) {
            &&& Self::is_shared_exponent(peak, texel.e as nat)
            &&& texel.r == round_half_up(r, pow2((texel.e + 13) as nat))
            &&& texel.g == round_half_up(g, pow2((texel.e + 13) as nat))
            &&& texel.b == round_half_up(b, pow2((texel.e + 13) as nat))
        } else if peak < 511 * pow2(268) {
            texel == (RGBE8 { r: 0, g: 0, b: 0, e: 255 })
        } else {
            texel == (RGBE8 {
                r: Self::flooded(r),
                g: Self::flooded(g),
                b: Self::flooded(b),
                e: 1,
            })
        }
    }

    /// Whether `texel` is the packing of three binary32 patterns.
    pub open spec fn packs(rgb: Seq<u32>, texel: RGBE8) -> bool {
        Self::encodes(
            Self::positive_part(rgb[0]),
            Self::positive_part(rgb[1]),
            Self::positive_part(rgb[2]),
            texel,
        )
    }

    /// The exponent field of the scale that the pattern of a peak gives: two
    /// above its own, three where its nine leading significand bits are all
    /// set. A field of 255 is infinity; 256 and 257 wrap to a scale of zero.
    pub open spec fn scale_field(peak_bits: u32) -> nat {
        if fraction(peak_bits) >= 0x7F_8000 {
            exponent_field(peak_bits) + 2
        } else {
            exponent_field(peak_bits) + 1
        }
    }

    /// What the scale field read off a peak's pattern says of its magnitude.
    pub proof fn lemma_scale_field(peak_bits: u32)
        requires
            MIN_NORMAL_BITS <= peak_bits <= INFINITY_BITS,
        ensures
            2 <= Self::scale_field(peak_bits) <= 256,
            Self::scale_field(peak_bits) <= 254 ==> Self::is_shared_exponent(
                magnitude(peak_bits),
                Self::scale_field(peak_bits) + 1,
            ) && magnitude(peak_bits) < 511 * pow2(267),
            Self::scale_field(peak_bits) == 255 ==> 511 * pow2(267) <= magnitude(peak_bits) < 511
                * pow2(268),
            Self::scale_field(peak_bits) >= 256 ==> 511 * pow2(268) <= magnitude(peak_bits),
    {
        let x = exponent_field(peak_bits);
        let f = fraction(peak_bits);
        assert(x == peak_bits / 0x80_0000);
        assert(1 <= x <= 255);
        assert(x == 255 ==> f == 0);
        let xs = Self::scale_field(peak_bits);
        let p = pow2((x - 1) as nat);
        lemma_pow2_pos((x - 1) as nat);
        lemma2_to64();
        lemma_pow2_adds((x - 1) as nat, 14);
        lemma_pow2_adds((x - 1) as nat, 15);
        lemma_pow2_adds((x - 1) as nat, 16);
        lemma_pow2_adds((x - 1) as nat, 17);
        let m = magnitude(peak_bits);
        assert(m == (0x80_0000 + f) * p);
        assert(0x80_0000 * p <= m < 0x100_0000 * p) by (nonlinear_arith)
            requires
                m == (0x80_0000 + f) * p,
                0 <= f < 0x80_0000,
                p > 0,
        ;
        if f >= 0x7F_8000 {
            assert(m >= 0xFF_8000 * p) by (nonlinear_arith)
                requires
                    m == (0x80_0000 + f) * p,
                    f >= 0x7F_8000,
                    p > 0,
            ;
        } else {
            assert(m < 0xFF_8000 * p) by (nonlinear_arith)
                requires
                    m == (0x80_0000 + f) * p,
                    f < 0x7F_8000,
                    p > 0,
            ;
        }
        if xs <= 254 {
            lemma_pow2_monotonic(xs + 14, 268);
            lemma_pow2_adds(267, 1);
        }
    }

    /// One channel with a negative value or a NaN replaced by zero.
    fn positive_bits(bits: u32) -> (c: u32)
        ensures
            c <= INFINITY_BITS,
            magnitude(c) == Self::positive_part(bits),
    {
        if bits >= SIGN_BIT || bits > INFINITY_BITS {
            assert(magnitude(0) == 0);
            0
        } else {
            bits
        }
    }

    /// The pattern of the largest of three channels and `2^-126`.
    fn peak_bits(r: u32, g: u32, b: u32) -> (m: u32)
        requires
            r <= INFINITY_BITS,
            g <= INFINITY_BITS,
            b <= INFINITY_BITS,
        ensures
            MIN_NORMAL_BITS <= m <= INFINITY_BITS,
            r <= m && g <= m && b <= m,
            magnitude(m) == Self::peak(magnitude(r), magnitude(g), magnitude(b)),
    {
        let m0: u32 = if MIN_NORMAL_BITS > r { MIN_NORMAL_BITS } else { r };
        let m1: u32 = if m0 > g { m0 } else { g };
        let m: u32 = if m1 > b { m1 } else { b };
        proof {
            lemma2_to64();
            assert(exponent_field(MIN_NORMAL_BITS) == 1 && fraction(MIN_NORMAL_BITS) == 0);
            assert(pow2(0) == 1 && pow2(23) == 0x80_0000);
            assert(magnitude(MIN_NORMAL_BITS) == 0x80_0000 * pow2(0));
            assert(magnitude(MIN_NORMAL_BITS) == pow2(23));
            lemma_larger_pattern(MIN_NORMAL_BITS, r);
            lemma_larger_pattern(m0, g);
            lemma_larger_pattern(m1, b);
        }
        m
    }

    /// One mantissa: the channel in steps of `2^(e - 136)`.
    fn mantissa(c: u32, peak_bits: u32, e: u8) -> (m: u8)
        requires
            c <= peak_bits,
            MIN_NORMAL_BITS <= peak_bits < INFINITY_BITS,
            Self::scale_field(peak_bits) <= 254,
            e == Self::scale_field(peak_bits) + 1,
        ensures
            m == round_half_up(magnitude(c), pow2((e + 13) as nat)),
    {
        proof {
            Self::lemma_scale_field(peak_bits);
            if c < peak_bits {
                lemma_magnitude_order(c, peak_bits);
            }
            assert(exponent_field(c) == c / 0x80_0000);
            assert(exponent_field(peak_bits) == peak_bits / 0x80_0000);
            lemma_pow2_pos((e + 13) as nat);
            lemma_round_upper(magnitude(c), pow2((e + 13) as nat), 255, false);
        }
        let q: u32 = round_scaled(c, e as u32 + 13, false);
        q as u8
    }

    /// The mantissa under a scale of zero.
    fn flood(c: u32) -> (m: u8)
        requires
            c <= INFINITY_BITS,
        ensures
            m == Self::flooded(magnitude(c)),
    {
        if c > 0 {
            proof {
                lemma_magnitude_order(0, c);
            }
            255
        } else {
            assert(magnitude(0) == 0);
            0
        }
    }

    /// Packs three binary32 channels under the exponent that their largest
    /// calls for. Every pattern is taken: a negative value and a NaN pack as
    /// zero.
    pub fn pack(rgb: [u32; 3]) -> (texel: RGBE8)
        ensures
            Self::packs(rgb@, texel),
    {
        let r = Self::positive_bits(rgb[0]);
        let g = Self::positive_bits(rgb[1]);
        let b = Self::positive_bits(rgb[2]);
        let m = Self::peak_bits(r, g, b);
        proof {
            Self::lemma_scale_field(m);
            lemma_pow2_monotonic(267, 268);
        }
        let x: u32 = m / 0x80_0000;
        let xs: u32 = if m % 0x80_0000 >= 0x7F_8000 { x + 2 } else { x + 1 };
        assert(exponent_field(m) == x);
        assert(xs == Self::scale_field(m));
        assert(magnitude(m) == Self::peak(
            Self::positive_part(rgb@[0]),
            Self::positive_part(rgb@[1]),
            Self::positive_part(rgb@[2]),
        ));
        if xs >= 256 {
            RGBE8 { r: Self::flood(r), g: Self::flood(g), b: Self::flood(b), e: 1 }
        } else if xs == 255 {
            RGBE8 { r: 0, g: 0, b: 0, e: 255 }
        } else {
            let e: u8 = (xs + 1) as u8;
            RGBE8 {
                r: Self::mantissa(r, m, e),
                g: Self::mantissa(g, m, e),
                b: Self::mantissa(b, m, e),
                e,
            }
        }
    }

    /// The red channel's value in units of 2^-149.
    pub open spec fn red_value(self) -> nat {
        self.r as nat * pow2((self.e + 13) as nat)
    }

    /// The green channel's value in units of 2^-149.
    pub open spec fn green_value(self) -> nat {
        self.g as nat * pow2((self.e + 13) as nat)
    }

    /// The blue channel's value in units of 2^-149.
    pub open spec fn blue_value(self) -> nat {
        self.b as nat * pow2((self.e + 13) as nat)
    }

    /// Whether three binary32 patterns are the exact values of the texel's
    /// channels, as non-negative patterns.
    pub open spec fn unpacks_to(self, rgb: Seq<u32>) -> bool {
        &&& rgb.len() == 3
        &&& forall|i: int| 0 <= i < 3 ==> rgb[i] < INFINITY_BITS
        &&& magnitude(rgb[0]) == self.red_value()
        &&& magnitude(rgb[1]) == self.green_value()
        &&& magnitude(rgb[2]) == self.blue_value()
    }

    /// Whether the exponent lies in the range of RGB9E5, so that the
    /// mantissas can be moved over as they are: `e - 128` in `[-15, 15]`.
    pub open spec fn has_direct_repack(self) -> bool {
        113 <= self.e <= 143
    }

    /// The RGB9E5 texel with the same exponent and each mantissa doubled.
    pub open spec fn direct_repack(self) -> RGB9E5 {
        RGB9E5(
            ((self.e - 113) * 0x800_0000 + self.b * 0x8_0000 + self.g * 0x400 + self.r * 2) as u32,
        )
    }

    /// Whether `texel` is this texel repacked: the mantissas moved over where
    /// the exponent allows it, else the saturated channels encoded anew.
    pub open spec fn repacks_to(self, texel: RGB9E5) -> bool {
        if self.has_direct_repack() {
            texel == self.direct_repack()
        } else {
            RGB9E5::encodes(
                RGB9E5::saturate(self.red_value()),
                RGB9E5::saturate(self.green_value()),
                RGB9E5::saturate(self.blue_value()),
                texel,
            )
        }
    }

    /// The three channels as binary32 patterns. Each is exactly
    /// `mantissa / 256 * 2^(e - 128)`, that is `mantissa * 2^(e + 13)` in units
    /// of 2^-149.
    pub fn unpack(self) -> (rgb: [u32; 3])
        ensures
            self.unpacks_to(rgb@),
    {
        let t: u32 = self.e as u32 + 13;
        proof {
            lemma2_to64();
            lemma_pow2_monotonic((8 + t) as nat, 277);
            lemma_product_below(self.r as nat, 8, t as nat);
            lemma_product_below(self.g as nat, 8, t as nat);
            lemma_product_below(self.b as nat, 8, t as nat);
        }
        let r = exact_bits(self.r as u32, t);
        let g = exact_bits(self.g as u32, t);
        let b = exact_bits(self.b as u32, t);
        [r, g, b]
    }

    /// Repacks the texel as RGB9E5. With an exponent in the range of RGB9E5
    /// the mantissas are moved over, each with a zero bit below it. Otherwise
    /// the channels are unpacked and packed anew, which saturates large values
    /// and rounds small ones.
    pub fn repack_rgb9e5(self) -> (texel: RGB9E5)
        ensures
            self.repacks_to(texel),
    {
        if self.e >= 113 && self.e <= 143 {
            let e5: u32 = self.e as u32 - 113;
            let r: u32 = self.r as u32;
            let g: u32 = self.g as u32;
            let b: u32 = self.b as u32;
            RGB9E5(e5 * 0x800_0000 + b * 0x8_0000 + g * 0x400 + r * 2)
        } else {
            let rgb = self.unpack();
            proof {
                assert(forall|i: int| 0 <= i < 3 ==> exponent_field(#[trigger] rgb@[i]) < 255);
            }
            RGB9E5::pack(rgb)
        }
    }
}

} // verus!
