use rgbe::{RGB9E5, RGBE8};

fn bits(rgb: [f32; 3]) -> [u32; 3] {
    [rgb[0].to_bits(), rgb[1].to_bits(), rgb[2].to_bits()]
}

fn floats(rgb: [u32; 3]) -> [f32; 3] {
    [f32::from_bits(rgb[0]), f32::from_bits(rgb[1]), f32::from_bits(rgb[2])]
}

/// The packing done in the machine's binary32 arithmetic: the bias trick.
fn float_pack(rgb: [f32; 3]) -> u32 {
    let max: f32 = 65408.0;
    let min_peak: f32 = 1.0 / 65536.0;
    let r = rgb[0].clamp(0.0, max);
    let g = rgb[1].clamp(0.0, max);
    let b = rgb[2].clamp(0.0, max);
    let peak = min_peak.max(r).max(g).max(b);
    let bias_bits = (peak.to_bits() + 0x0780_4000) & 0x7F80_0000;
    let bias = f32::from_bits(bias_bits);
    let rm = (r + bias).to_bits() & 0x1ff;
    let gm = (g + bias).to_bits() & 0x1ff;
    let bm = (b + bias).to_bits() & 0x1ff;
    let e = (bias_bits << 4).wrapping_add(0x1000_0000);
    e | (bm << 18) | (gm << 9) | rm
}

fn float_unpack(word: u32) -> [f32; 3] {
    let scale = 2.0f32.powi((word >> 27) as i32 - 15);
    [
        (word & 0x1ff) as f32 * scale / 512.0,
        ((word >> 9) & 0x1ff) as f32 * scale / 512.0,
        ((word >> 18) & 0x1ff) as f32 * scale / 512.0,
    ]
}

struct Xorshift(u64);

impl Xorshift {
    fn next(&mut self) -> u32 {
        self.0 ^= self.0 << 13;
        self.0 ^= self.0 >> 7;
        self.0 ^= self.0 << 17;
        (self.0 >> 16) as u32
    }

    /// A pattern that is no NaN.
    fn number(&mut self) -> u32 {
        loop {
            let b = self.next();
            if !f32::from_bits(b).is_nan() {
                return b;
            }
        }
    }

    /// A non-negative pattern in or near the range that RGB9E5 holds.
    fn in_range(&mut self) -> u32 {
        let e = 100 + self.next() % 45;
        (e << 23) | (self.next() & 0x7F_FFFF)
    }
}

#[test]
fn pack_one() {
    let t = RGB9E5::pack(bits([1.0, 0.5, 0.25]));
    // 1.0 has exponent 0: field 16, a mantissa counts 2^-8.
    assert_eq!(t.0 >> 27, 16);
    assert_eq!(t.0 & 0x1ff, 256);
    assert_eq!((t.0 >> 9) & 0x1ff, 128);
    assert_eq!((t.0 >> 18) & 0x1ff, 64);
}

#[test]
fn pack_clamps_negative_to_zero() {
    let t = RGB9E5::pack(bits([-1.0, 0.0, 0.0]));
    assert_eq!(t, RGB9E5(0));
    let t = RGB9E5::pack(bits([-1.0, 2.0, 0.0]));
    assert_eq!(t.0 & 0x1ff, 0);
    assert_eq!((t.0 >> 9) & 0x1ff, 256);
    assert_eq!(t.0 >> 27, 17);
}

#[test]
fn pack_saturates_large_values() {
    let t = RGB9E5::pack(bits([1e30, 1e30, 1e30]));
    assert_eq!(t, RGB9E5(0xFFFF_FFFF));
    let t = RGB9E5::pack(bits([f32::INFINITY, f32::MAX, 65408.0]));
    assert_eq!(t, RGB9E5(0xFFFF_FFFF));
}

#[test]
fn pack_zero_has_minimum_exponent() {
    assert_eq!(RGB9E5::pack(bits([0.0, 0.0, 0.0])), RGB9E5(0));
    assert_eq!(RGB9E5::pack(bits([-0.0, -0.0, -0.0])), RGB9E5(0));
}

#[test]
fn pack_nan_counts_as_zero() {
    let t = RGB9E5::pack(bits([f32::NAN, 1.0, -f32::NAN]));
    assert_eq!(t.0 & 0x1ff, 0);
    assert_eq!((t.0 >> 9) & 0x1ff, 256);
    assert_eq!((t.0 >> 18) & 0x1ff, 0);
    assert_eq!(t.0 >> 27, 16);
}

#[test]
fn pack_rounds_ties_to_even() {
    // 1 + 2^-9 lies halfway between the mantissas 256 and 257.
    let t = RGB9E5::pack(bits([1.0 + 1.0 / 512.0, 0.0, 0.0]));
    assert_eq!(t.0 & 0x1ff, 256);
    // 1 + 3 * 2^-9 lies halfway between 257 and 258.
    let t = RGB9E5::pack(bits([1.0 + 3.0 / 512.0, 0.0, 0.0]));
    assert_eq!(t.0 & 0x1ff, 258);
}

#[test]
fn pack_peak_rounding_up_raises_exponent() {
    // 2 - 2^-9 rounds to 2.0 at nine bits.
    let t = RGB9E5::pack(bits([2.0 - 1.0 / 512.0, 1.0, 0.0]));
    assert_eq!(t.0 >> 27, 17);
    assert_eq!(t.0 & 0x1ff, 256);
    assert_eq!((t.0 >> 9) & 0x1ff, 128);
    // Just below it the exponent stays.
    let t = RGB9E5::pack(bits([f32::from_bits((2.0f32 - 1.0 / 512.0).to_bits() - 1), 1.0, 0.0]));
    assert_eq!(t.0 >> 27, 16);
    assert_eq!(t.0 & 0x1ff, 511);
    assert_eq!((t.0 >> 9) & 0x1ff, 256);
}

#[test]
fn pack_small_values() {
    // 2^-24 is one mantissa step at the lowest exponent.
    let t = RGB9E5::pack(bits([2.0f32.powi(-24), 2.0f32.powi(-25), 2.0f32.powi(-26)]));
    assert_eq!(t, RGB9E5(1));
    let t = RGB9E5::pack(bits([3.0 * 2.0f32.powi(-25), f32::MIN_POSITIVE, 1e-45]));
    assert_eq!(t, RGB9E5(2));
}

#[test]
fn pack_agrees_with_float_arithmetic() {
    let mut rng = Xorshift(0x2545_F491_4F6C_DD1D);
    for i in 0..300_000 {
        let rgb = if i % 3 == 0 {
            [rng.number(), rng.number(), rng.number()]
        } else if i % 3 == 1 {
            [rng.in_range(), rng.in_range(), rng.in_range()]
        } else {
            [rng.in_range(), rng.number(), rng.in_range() & 0xFFFF_8000]
        };
        assert_eq!(RGB9E5::pack(rgb).0, float_pack(floats(rgb)), "{:08x?}", rgb);
    }
}

#[test]
fn pack_agrees_with_float_arithmetic_at_edges() {
    let edges: [f32; 16] = [
        0.0,
        -0.0,
        1e-45,
        f32::MIN_POSITIVE,
        1.0 / 65536.0,
        0.99999994 / 65536.0,
        1.0,
        1.9980468,
        1.9980469,
        1.998047,
        65408.0,
        65407.996,
        65408.004,
        f32::MAX,
        f32::INFINITY,
        f32::NEG_INFINITY,
    ];
    for r in edges {
        for g in edges {
            for b in edges {
                let rgb = [r, g, b];
                assert_eq!(RGB9E5::pack(bits(rgb)).0, float_pack(rgb), "{:?}", rgb);
            }
        }
    }
}

#[test]
fn unpack_lowest_red_bit() {
    let rgb = floats(RGB9E5(0x0000_0001).unpack());
    assert_eq!(rgb[0], 2.0f32.powi(-15) / 512.0);
    assert_eq!(rgb[0], 2.0f32.powi(-24));
    assert_eq!(rgb[1], 0.0);
    assert_eq!(rgb[2], 0.0);
    assert_eq!(RGB9E5(1).unpack(), [0x3380_0000, 0, 0]);
}

#[test]
fn unpack_fields() {
    // exponent 16, red 256, green 128, blue 64
    let word = (16 << 27) | (64 << 18) | (128 << 9) | 256;
    assert_eq!(floats(RGB9E5(word).unpack()), [1.0, 0.5, 0.25]);
    assert_eq!(floats(RGB9E5(0xFFFF_FFFF).unpack()), [65408.0, 65408.0, 65408.0]);
    assert_eq!(floats(RGB9E5(0).unpack()), [0.0, 0.0, 0.0]);
}

#[test]
fn unpack_agrees_with_float_arithmetic() {
    let mut rng = Xorshift(0x9E37_79B9_7F4A_7C15);
    for _ in 0..200_000 {
        let word = rng.next();
        assert_eq!(floats(RGB9E5(word).unpack()), float_unpack(word), "{:08x}", word);
    }
}

#[test]
fn round_trip_is_within_half_a_step() {
    let mut rng = Xorshift(0xD1B5_4A32_D192_ED03);
    for _ in 0..100_000 {
        // channels in [2^-16, 511 * 2^7]
        let mut rgb = [0u32; 3];
        for c in rgb.iter_mut() {
            let e = 111 + rng.next() % 32;
            let b = (e << 23) | (rng.next() & 0x7F_FFFF);
            *c = b.min(0x477F_8000);
        }
        let t = RGB9E5::pack(rgb);
        let back = floats(t.unpack());
        let step = 2.0f64.powi((t.0 >> 27) as i32 - 24);
        for i in 0..3 {
            let v = f32::from_bits(rgb[i]) as f64;
            assert!((back[i] as f64 - v).abs() <= step / 2.0, "{:08x?}", rgb);
        }
    }
}

#[test]
fn unpacked_values_survive_half_precision() {
    let mut words: Vec<u32> = vec![0, 1, 0x1ff, 0xFFFF_FFFF, 0xF800_0001];
    for e in 0..32u32 {
        for m in [0u32, 1, 2, 255, 256, 257, 510, 511] {
            words.push((e << 27) | (m << 18) | ((511 - m) << 9) | (m ^ 0x155));
        }
    }
    for word in words {
        let rgb = floats(RGB9E5(word).unpack());
        for c in rgb {
            let h = half::f16::from_f32(c);
            assert_eq!(h.to_f32(), c, "{:08x}", word);
        }
    }
}

#[test]
fn rgbe8_unpack_values() {
    let t = RGBE8 { r: 128, g: 64, b: 255, e: 129 };
    assert_eq!(floats(t.unpack()), [1.0, 0.5, 255.0 / 128.0]);
    let t = RGBE8 { r: 1, g: 0, b: 2, e: 0 };
    assert_eq!(floats(t.unpack()), [2.0f32.powi(-136), 0.0, 2.0f32.powi(-135)]);
    let t = RGBE8 { r: 255, g: 1, b: 128, e: 255 };
    assert_eq!(floats(t.unpack()), [255.0 * 2.0f32.powi(119), 2.0f32.powi(119), 2.0f32.powi(126)]);
}

#[test]
fn rgbe8_unpack_agrees_with_float_arithmetic() {
    for e in 0..=255u8 {
        for m in 0..=255u8 {
            let t = RGBE8 { r: m, g: 255 - m, b: m / 2, e };
            let scale = 2.0f64.powi(e as i32 - 128);
            let want = [
                (m as f64 / 256.0 * scale) as f32,
                ((255 - m) as f64 / 256.0 * scale) as f32,
                ((m / 2) as f64 / 256.0 * scale) as f32,
            ];
            assert_eq!(floats(t.unpack()), want);
        }
    }
}

#[test]
fn repack_moves_mantissas_inside_the_range() {
    let t = RGBE8 { r: 128, g: 64, b: 255, e: 129 };
    assert_eq!(t.repack_rgb9e5(), RGB9E5((16 << 27) | (510 << 18) | (128 << 9) | 256));
    let t = RGBE8 { r: 1, g: 2, b: 3, e: 113 };
    assert_eq!(t.repack_rgb9e5(), RGB9E5((6 << 18) | (4 << 9) | 2));
    let t = RGBE8 { r: 255, g: 255, b: 255, e: 143 };
    assert_eq!(t.repack_rgb9e5(), RGB9E5((30 << 27) | (510 << 18) | (510 << 9) | 510));
    // not normalised: the mantissas stay where they are
    let t = RGBE8 { r: 1, g: 0, b: 0, e: 128 };
    assert_eq!(t.repack_rgb9e5(), RGB9E5((15 << 27) | 2));
}

#[test]
fn repack_outside_the_range_packs_anew() {
    // one above the range still fits in the largest exponent
    let t = RGBE8 { r: 255, g: 128, b: 0, e: 144 };
    assert_eq!(t.repack_rgb9e5(), RGB9E5((31 << 27) | (256 << 9) | 510));
    // 2^16 and above saturates
    let t = RGBE8 { r: 255, g: 128, b: 0, e: 145 };
    assert_eq!(t.repack_rgb9e5(), RGB9E5((31 << 27) | (511 << 9) | 511));
    let t = RGBE8 { r: 255, g: 128, b: 1, e: 255 };
    assert_eq!(t.repack_rgb9e5(), RGB9E5(0xFFFF_FFFF));
    // one below the range a mantissa is still a whole step of the lowest exponent
    let t = RGBE8 { r: 255, g: 128, b: 3, e: 112 };
    assert_eq!(t.repack_rgb9e5(), RGB9E5((3 << 18) | (128 << 9) | 255));
    // further down the mantissas shift, rounding to even
    let t = RGBE8 { r: 255, g: 128, b: 3, e: 111 };
    assert_eq!(t.repack_rgb9e5(), RGB9E5((2 << 18) | (64 << 9) | 128));
    let t = RGBE8 { r: 255, g: 2, b: 6, e: 110 };
    assert_eq!(t.repack_rgb9e5(), RGB9E5((2 << 18) | (0 << 9) | 64));
    let t = RGBE8 { r: 255, g: 128, b: 1, e: 0 };
    assert_eq!(t.repack_rgb9e5(), RGB9E5(0));
}

#[test]
fn repack_of_normalised_texels_equals_unpack_then_pack() {
    for e in 113..=143u8 {
        for m in 0..=255u8 {
            let t = RGBE8 { r: m, g: 128 + m / 2, b: 255 - m, e };
            assert_eq!(t.repack_rgb9e5(), RGB9E5::pack(t.unpack()));
        }
    }
    for m in 0..=127u8 {
        let t = RGBE8 { r: m, g: m / 2, b: 127 - m, e: 113 };
        assert_eq!(t.repack_rgb9e5(), RGB9E5::pack(t.unpack()));
    }
}

#[test]
fn repack_matches_float_arithmetic_everywhere_outside_the_range() {
    for e in (0..113u8).chain(144..=255) {
        for m in 0..=255u8 {
            let t = RGBE8 { r: m, g: 255 - m, b: m / 3, e };
            assert_eq!(t.repack_rgb9e5().0, float_pack(floats(t.unpack())));
        }
    }
}

#[test]
fn repack_keeps_unnormalised_mantissas_but_not_the_value_apart() {
    // 2^-8 with a mantissa of 1: moved over as it is
    let t = RGBE8 { r: 1, g: 0, b: 0, e: 128 };
    let moved = t.repack_rgb9e5();
    // packed anew, the mantissa is normalised under a smaller exponent
    let anew = RGB9E5::pack(t.unpack());
    assert_eq!(moved, RGB9E5((15 << 27) | 2));
    assert_eq!(anew, RGB9E5((8 << 27) | 256));
    assert_eq!(moved.unpack(), anew.unpack());
    assert_eq!(moved.unpack(), t.unpack());
}

#[test]
fn repack_paths_agree_in_value_over_the_whole_range() {
    for e in 113..=143u8 {
        for m in 0..=255u8 {
            let t = RGBE8 { r: m, g: m / 3, b: m / 17, e };
            let moved = t.repack_rgb9e5();
            let anew = RGB9E5::pack(t.unpack());
            assert_eq!(moved.unpack(), t.unpack());
            assert_eq!(anew.unpack(), t.unpack());
        }
    }
}
