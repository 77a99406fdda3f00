//! Shared-exponent HDR texel formats and the conversions between them.
//!
//! Three texel types are converted into one another: [`RGBE8`], the Radiance
//! format that also fits an RGBA8 picture, [`RGB9E5`], the GPU texture
//! format, and [`RGBA16F`], four half-precision channels.
//!
//! Floating-point channels are handled as IEEE-754 bit patterns (`u32` for
//! binary32, `u16` for binary16), so that every conversion is integer
//! arithmetic with a proved contract. The contracts speak of the value that
//! a pattern denotes, as a natural number of units of 2^-149 (see [`ieee`]).
//! A caller with `f32` values passes `f32::to_bits` and reads results with
//! `f32::from_bits`.
pub mod binary16;
pub mod buffers;
pub mod ieee;
pub mod laws;
pub mod rgb9e5;
pub mod rgba16f;
pub mod rgbe8;
pub mod rounding;
pub mod types;

pub use crate::buffers::{repack_texels, texels_from_bytes, texels_to_bytes};
pub use crate::types::{RGB9E5, RGBA16F, RGBE8};
