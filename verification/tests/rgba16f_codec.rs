use half::f16;
use rgbe::binary16::{exact_half, narrow, widen};
use rgbe::{RGB9E5, RGBA16F, RGBE8};

fn texel(r: f32, g: f32, b: f32, a: f32) -> RGBA16F {
    RGBA16F {
        r: f16::from_f32(r).to_bits(),
        g: f16::from_f32(g).to_bits(),
        b: f16::from_f32(b).to_bits(),
        a: f16::from_f32(a).to_bits(),
    }
}

#[test]
fn widen_agrees_with_half_on_every_pattern() {
    for h in 0..=u16::MAX {
        assert_eq!(widen(h), f16::from_bits(h).to_f32().to_bits(), "{:04x}", h);
    }
}

#[test]
fn widen_values() {
    assert_eq!(widen(0x3C00), 1.0f32.to_bits());
    assert_eq!(widen(0xC000), (-2.0f32).to_bits());
    assert_eq!(widen(0x0001), 2.0f32.powi(-24).to_bits());
    assert_eq!(widen(0x03FF), (1023.0 * 2.0f32.powi(-24)).to_bits());
    assert_eq!(widen(0x7BFF), 65504.0f32.to_bits());
    assert_eq!(widen(0x7C00), f32::INFINITY.to_bits());
    assert_eq!(widen(0xFC00), f32::NEG_INFINITY.to_bits());
    assert_eq!(widen(0x8000), (-0.0f32).to_bits());
    assert_eq!(widen(0x7C01), 0x7FC0_2000);
    assert_eq!(widen(0x7E00), 0x7FC0_0000);
}

#[test]
fn exact_half_values() {
    assert_eq!(exact_half(0, 7), 0);
    assert_eq!(exact_half(1, 0), 1);
    assert_eq!(exact_half(1, 24), 0x3C00);
    assert_eq!(exact_half(511, 0), 511);
    assert_eq!(exact_half(511, 31), f16::from_f32(65408.0).to_bits());
    assert_eq!(exact_half(3, 1), 6);
    assert_eq!(exact_half(256, 2), 0x0400);
}

#[test]
fn to_f32_bits_widens_each_channel() {
    let t = texel(1.0, 0.5, -3.0, 0.25);
    assert_eq!(
        t.to_f32_bits(),
        [1.0f32.to_bits(), 0.5f32.to_bits(), (-3.0f32).to_bits(), 0.25f32.to_bits()]
    );
}

#[test]
fn into_rgb9e5_ignores_alpha() {
    let want = RGB9E5((16 << 27) | (64 << 18) | (128 << 9) | 256);
    assert_eq!(texel(1.0, 0.5, 0.25, 0.0).into_rgb9e5(), want);
    assert_eq!(texel(1.0, 0.5, 0.25, 1000.0).into_rgb9e5(), want);
    assert_eq!(texel(-1.0, f32::NAN, 0.0, 1.0).into_rgb9e5(), RGB9E5(0));
    assert_eq!(
        texel(f32::INFINITY, 65504.0, 0.0, 1.0).into_rgb9e5(),
        RGB9E5((31 << 27) | (511 << 9) | 511)
    );
}

#[test]
fn into_rgbe8_ignores_alpha() {
    let want = RGBE8 { r: 128, g: 64, b: 32, e: 129 };
    assert_eq!(texel(1.0, 0.5, 0.25, 0.0).into_rgbe8(), want);
    assert_eq!(texel(1.0, 0.5, 0.25, -7.0).into_rgbe8(), want);
    assert_eq!(texel(f32::INFINITY, 1.0, 0.0, 1.0).into_rgbe8(), RGBE8 { r: 255, g: 255, b: 0, e: 1 });
}

#[test]
fn into_packed_agrees_with_widening_by_half() {
    let mut x: u32 = 12345;
    for _ in 0..100_000 {
        x = x.wrapping_mul(1_664_525).wrapping_add(1_013_904_223);
        let r = (x >> 16) as u16;
        x = x.wrapping_mul(1_664_525).wrapping_add(1_013_904_223);
        let g = (x >> 16) as u16;
        x = x.wrapping_mul(1_664_525).wrapping_add(1_013_904_223);
        let b = (x >> 16) as u16;
        let t = RGBA16F { r, g, b, a: 0 };
        let rgb = [
            f16::from_bits(r).to_f32().to_bits(),
            f16::from_bits(g).to_f32().to_bits(),
            f16::from_bits(b).to_f32().to_bits(),
        ];
        assert_eq!(t.into_rgb9e5(), RGB9E5::pack(rgb));
        assert_eq!(t.into_rgbe8(), RGBE8::pack(rgb));
    }
}

#[test]
fn from_rgb9e5_sets_alpha_to_one() {
    let t = RGBA16F::from_rgb9e5(RGB9E5((16 << 27) | (64 << 18) | (128 << 9) | 256));
    assert_eq!(t, texel(1.0, 0.5, 0.25, 1.0));
    assert_eq!(t.a, 0x3C00);
    assert_eq!(RGBA16F::from_rgb9e5(RGB9E5(0)), texel(0.0, 0.0, 0.0, 1.0));
    assert_eq!(RGBA16F::from_rgb9e5(RGB9E5(1)).r, 1);
}

#[test]
fn from_rgb9e5_is_what_half_narrows_the_unpacked_channels_to() {
    for e in 0..32u32 {
        for m in 0..512u32 {
            let word = (e << 27) | ((511 - m) << 18) | ((m ^ 0x155) << 9) | m;
            let rgb = RGB9E5(word).unpack();
            let t = RGBA16F::from_rgb9e5(RGB9E5(word));
            assert_eq!(t.r, f16::from_f32(f32::from_bits(rgb[0])).to_bits());
            assert_eq!(t.g, f16::from_f32(f32::from_bits(rgb[1])).to_bits());
            assert_eq!(t.b, f16::from_f32(f32::from_bits(rgb[2])).to_bits());
            // and back without loss
            assert_eq!(t.to_f32_bits()[0], rgb[0]);
            assert_eq!(t.to_f32_bits()[1], rgb[1]);
            assert_eq!(t.to_f32_bits()[2], rgb[2]);
        }
    }
}

fn half_narrow(bits: u32) -> u16 {
    f16::from_f32(f32::from_bits(bits)).to_bits()
}

#[test]
fn narrow_values() {
    assert_eq!(narrow(1.0f32.to_bits()), 0x3C00);
    assert_eq!(narrow((-2.0f32).to_bits()), 0xC000);
    assert_eq!(narrow(0), 0);
    assert_eq!(narrow(0x8000_0000), 0x8000);
    assert_eq!(narrow(65504.0f32.to_bits()), 0x7BFF);
    // halfway to 65536 the tie goes to the even neighbour, which is infinity
    assert_eq!(narrow(65520.0f32.to_bits()), 0x7C00);
    assert_eq!(narrow(65519.996f32.to_bits()), 0x7BFF);
    assert_eq!(narrow(1e30f32.to_bits()), 0x7C00);
    assert_eq!(narrow(f32::INFINITY.to_bits()), 0x7C00);
    assert_eq!(narrow(f32::NEG_INFINITY.to_bits()), 0xFC00);
    // the smallest step is 2^-24; half of it is a tie that goes to zero
    assert_eq!(narrow(2.0f32.powi(-24).to_bits()), 1);
    assert_eq!(narrow(2.0f32.powi(-25).to_bits()), 0);
    assert_eq!(narrow((1.5 * 2.0f32.powi(-24)).to_bits()), 2);
    assert_eq!(narrow(f32::from_bits(2.0f32.powi(-25).to_bits() + 1).to_bits()), 1);
    assert_eq!(narrow(1e-45f32.to_bits()), 0);
    // ties to even among normal values
    assert_eq!(narrow((1.0f32 + 2.0f32.powi(-11)).to_bits()), 0x3C00);
    assert_eq!(narrow((1.0f32 + 3.0 * 2.0f32.powi(-11)).to_bits()), 0x3C02);
    // a NaN stays a NaN and keeps the top of its fraction
    assert_eq!(narrow(0x7FC0_0000), 0x7E00);
    assert_eq!(narrow(0x7F80_0001), 0x7E00);
    assert_eq!(narrow(0xFF80_2000), 0xFE01);
}

#[test]
fn narrow_agrees_with_half_around_every_binary16_value() {
    for h in 0..=u16::MAX {
        let w = widen(h);
        assert_eq!(narrow(w), half_narrow(w), "{:04x}", h);
        if !f16::from_bits(h).is_nan() {
            assert_eq!(narrow(w), h, "{:04x}", h);
        }
        for d in [1u32, 0xFFF, 0x1000, 0x1001, 0x1FFF, 0x2000 - 0x1001, 0x7FF, 0x800, 0x801] {
            let up = w.wrapping_add(d);
            let down = w.wrapping_sub(d);
            assert_eq!(narrow(up), half_narrow(up), "{:08x}", up);
            assert_eq!(narrow(down), half_narrow(down), "{:08x}", down);
        }
    }
}

#[test]
fn narrow_agrees_with_half_on_many_patterns() {
    let mut x: u64 = 0x9E37_79B9_7F4A_7C15;
    for i in 0..2_000_000u32 {
        x ^= x << 13;
        x ^= x >> 7;
        x ^= x << 17;
        let mut bits = (x >> 20) as u32;
        if i % 2 == 0 {
            // in and around the range of binary16
            bits = (bits & 0x807F_FFFF) | ((85 + (x >> 55) as u32 % 62) << 23);
        }
        if i % 7 == 0 {
            bits &= 0xFFFF_F000;
        }
        assert_eq!(narrow(bits), half_narrow(bits), "{:08x}", bits);
    }
}

#[test]
fn from_f32_narrows_each_channel() {
    let t = RGBA16F::from_f32([
        1.0f32.to_bits(),
        0.1f32.to_bits(),
        (-1000.5f32).to_bits(),
        1e9f32.to_bits(),
    ]);
    assert_eq!(t, texel(1.0, 0.1, -1000.5, 1e9));
    assert_eq!(t.r, 0x3C00);
    assert_eq!(t.a, 0x7C00);
}

#[test]
fn from_rgb9e5_is_from_f32_of_the_unpacked_channels() {
    for e in 0..32u32 {
        for m in 0..512u32 {
            let word = (e << 27) | (m << 18) | ((511 - m) << 9) | (m ^ 0xAA);
            let rgb = RGB9E5(word).unpack();
            let t = RGBA16F::from_f32([rgb[0], rgb[1], rgb[2], 1.0f32.to_bits()]);
            assert_eq!(t, RGBA16F::from_rgb9e5(RGB9E5(word)));
        }
    }
}
