//! The texel types and their fields.
use vstd::prelude::*;

verus! {

/// A Radiance RGBE8 texel: three 8-bit mantissas and a shared exponent with a
/// bias of 128, which takes the place of an alpha channel. A channel stands
/// for `mantissa / 256 * 2^(e - 128)`.
#[derive(PartialEq, Eq, Structural, Clone, Copy, Debug)]
pub struct RGBE8 {
    pub r: u8,
    pub g: u8,
    pub b: u8,
    pub e: u8,
}

/// An `rgb9e5ufloat` texel. From the lowest bit up: 9 bits each of red, green
/// and blue mantissa, then 5 bits of shared exponent with a bias of 15. A
/// channel stands for `mantissa / 512 * 2^(exponent - 15)`.
#[derive(PartialEq, Eq, Structural, Clone, Copy, Debug)]
pub struct RGB9E5(pub u32);

/// An `rgba16float` texel: four IEEE-754 binary16 values, held as their bit
/// patterns. Alpha is carried along and read by no conversion.
#[derive(PartialEq, Eq, Structural, Clone, Copy, Debug)]
pub struct RGBA16F {
    pub r: u16,
    pub g: u16,
    pub b: u16,
    pub a: u16,
}

impl RGB9E5 {
    /// The red mantissa, bits 0 to 8.
    pub open spec fn red(self) -> nat {
        (self.0 % 512) as nat
    }

    /// The green mantissa, bits 9 to 17.
    pub open spec fn green(self) -> nat {
        (self.0 / 0x200 % 512) as nat
    }

    /// The blue mantissa, bits 18 to 26.
    pub open spec fn blue(self) -> nat {
        (self.0 / 0x4_0000 % 512) as nat
    }

    /// The exponent field, bits 27 to 31.
    pub open spec fn exponent(self) -> nat {
        (self.0 / 0x800_0000) as nat
    }
}

} // verus!
