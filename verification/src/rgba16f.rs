//! The RGBA16F texel and its conversions to and from the shared-exponent
//! formats.
use crate::binary16::{
    exact_half, half_is_infinite, half_is_nan, half_is_negative, half_magnitude, narrow,
    narrows_to, widen, widens_to, HALF_INFINITY_BITS, HALF_ONE_BITS,
};
use crate::ieee::{lemma_pow2_times, magnitude};
use crate::types::{RGB9E5, RGBA16F, RGBE8};
use vstd::arithmetic::power2::{lemma2_to64, lemma_pow2_adds, pow2};
use vstd::prelude::*;

verus! {

impl RGBA16F {
    /// A channel as packing reads it, in units of 2^-149: a negative value, a
    /// negative zero and a NaN count as zero, infinity as `2^128`.
    pub open spec fn channel_value(h: u16) -> nat {
        if half_is_negative(h) || half_is_nan(h) {
            0
        } else if half_is_infinite(h) {
            pow2(277)
        } else {
            half_magnitude(h) * pow2(125)
        }
    }

    /// What widening a channel gives is read by both packings as the
    /// channel's value.
    pub proof fn lemma_widened_value(h: u16, bits: u32)
        requires
            widens_to(h, bits),
        ensures
            RGBE8::positive_part(bits) == Self::channel_value(h),
            RGB9E5::clamped(bits) == RGB9E5::saturate(Self::channel_value(h)),
    {
        if !half_is_negative(h) && half_is_infinite(h) {
            lemma2_to64();
            lemma_pow2_adds(23, 254);
            assert(magnitude(bits) == 0x80_0000 * pow2(254));
        }
    }

    /// Rounds four binary32 patterns to binary16, each to the nearest value,
    /// ties to even. A value of `65520` or more becomes infinity.
    pub fn from_f32(c: [u32; 4]) -> (out: RGBA16F)
        ensures
            narrows_to(c@[0], out.r),
            narrows_to(c@[1], out.g),
            narrows_to(c@[2], out.b),
            narrows_to(c@[3], out.a),
    {
        RGBA16F { r: narrow(c[0]), g: narrow(c[1]), b: narrow(c[2]), a: narrow(c[3]) }
    }

    /// The four channels as binary32 patterns of the same values.
    pub fn to_f32_bits(self) -> (rgba: [u32; 4])
        ensures
            widens_to(self.r, rgba@[0]),
            widens_to(self.g, rgba@[1]),
            widens_to(self.b, rgba@[2]),
            widens_to(self.a, rgba@[3]),
    {
        [widen(self.r), widen(self.g), widen(self.b), widen(self.a)]
    }

    /// Packs red, green and blue into an RGB9E5 texel. Alpha is ignored.
    pub fn into_rgb9e5(self) -> (texel: RGB9E5)
        ensures
            RGB9E5::encodes(
                RGB9E5::saturate(Self::channel_value(self.r)),
                RGB9E5::saturate(Self::channel_value(self.g)),
                RGB9E5::saturate(Self::channel_value(self.b)),
                texel,
            ),
    {
        let rgb = [widen(self.r), widen(self.g), widen(self.b)];
        proof {
            Self::lemma_widened_value(self.r, rgb@[0]);
            Self::lemma_widened_value(self.g, rgb@[1]);
            Self::lemma_widened_value(self.b, rgb@[2]);
        }
        RGB9E5::pack(rgb)
    }

    /// Packs red, green and blue into an RGBE8 texel. Alpha is ignored.
    pub fn into_rgbe8(self) -> (texel: RGBE8)
        ensures
            RGBE8::encodes(
                Self::channel_value(self.r),
                Self::channel_value(self.g),
                Self::channel_value(self.b),
                texel,
            ),
    {
        let rgb = [widen(self.r), widen(self.g), widen(self.b)];
        proof {
            Self::lemma_widened_value(self.r, rgb@[0]);
            Self::lemma_widened_value(self.g, rgb@[1]);
            Self::lemma_widened_value(self.b, rgb@[2]);
        }
        RGBE8::pack(rgb)
    }

    /// The texel with the channels of an RGB9E5 texel and an alpha of 1.0.
    /// Nothing is lost: every channel that RGB9E5 holds, `mantissa * 2^(e - 24)`,
    /// is a binary16 value.
    pub fn from_rgb9e5(texel: RGB9E5) -> (out: RGBA16F)
        ensures
            out.r < HALF_INFINITY_BITS && out.g < HALF_INFINITY_BITS && out.b < HALF_INFINITY_BITS,
            half_magnitude(out.r) == texel.red() * pow2(texel.exponent()),
            half_magnitude(out.g) == texel.green() * pow2(texel.exponent()),
            half_magnitude(out.b) == texel.blue() * pow2(texel.exponent()),
            out.a == HALF_ONE_BITS,
            Self::channel_value(out.r) == texel.red_value(),
            Self::channel_value(out.g) == texel.green_value(),
            Self::channel_value(out.b) == texel.blue_value(),
    {
        let e: u16 = (texel.0 / 0x800_0000) as u16;
        let r = exact_half((texel.0 % 512) as u16, e);
        let g = exact_half((texel.0 / 0x200 % 512) as u16, e);
        let b = exact_half((texel.0 / 0x4_0000 % 512) as u16, e);
        proof {
            lemma_pow2_times(texel.red(), e as nat, 125);
            lemma_pow2_times(texel.green(), e as nat, 125);
            lemma_pow2_times(texel.blue(), e as nat, 125);
        }
        RGBA16F { r, g, b, a: HALF_ONE_BITS }
    }
}

} // verus!
