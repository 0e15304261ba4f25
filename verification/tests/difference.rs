use band_diff::binary32::exceeds;
use band_diff::difference::{abs_diff, max_abs_diff};
use band_diff::rounding::round_to_nearest;

/// What the machine computes for `|a - b|`, with `None` for a result that is
/// not a number.
fn machine_abs_diff(a: u32, b: u32) -> Option<u32> {
    let d = (f32::from_bits(a) - f32::from_bits(b)).abs();
    if d.is_nan() {
        None
    } else {
        Some(d.to_bits())
    }
}

/// A fixed sequence of well mixed 64-bit numbers.
fn next(state: &mut u64) -> u64 {
    *state = state
        .wrapping_mul(6364136223846793005)
        .wrapping_add(1442695040888963407);
    let mut x = *state;
    x ^= x >> 33;
    x = x.wrapping_mul(0xff51afd7ed558ccd);
    x ^= x >> 29;
    x
}

const NOTABLE: [u32; 30] = [
    0x0000_0000,
    0x8000_0000,
    0x0000_0001,
    0x8000_0001,
    0x0000_0002,
    0x007F_FFFF,
    0x0080_0000,
    0x0080_0001,
    0x00FF_FFFF,
    0x0100_0000,
    0x3F80_0000,
    0xBF80_0000,
    0x3F80_0001,
    0x3F7F_FFFF,
    0x4000_0000,
    0x4040_0000,
    0x4B00_0000,
    0x4B80_0000,
    0x4B7F_FFFF,
    0x4C00_0001,
    0x7F7F_FFFF,
    0xFF7F_FFFF,
    0x7F00_0000,
    0x7F80_0000,
    0xFF80_0000,
    0x7FC0_0000,
    0xFFC0_0000,
    0x7F80_0001,
    0x3400_0000,
    0x3380_0000,
];

#[test]
fn abs_diff_agrees_with_the_machine_on_notable_values() {
    for &a in NOTABLE.iter() {
        for &b in NOTABLE.iter() {
            assert_eq!(abs_diff(a, b), machine_abs_diff(a, b), "{:#x} {:#x}", a, b);
        }
    }
}

#[test]
fn abs_diff_agrees_with_the_machine_on_mixed_bits() {
    let mut state: u64 = 0x1234_5678_9abc_def0;
    for _ in 0..200_000 {
        let x = next(&mut state);
        let a = (x >> 32) as u32;
        let b = x as u32;
        assert_eq!(abs_diff(a, b), machine_abs_diff(a, b), "{:#x} {:#x}", a, b);
    }
}

#[test]
fn abs_diff_agrees_with_the_machine_on_near_neighbours() {
    let mut state: u64 = 0x0bad_cafe_f00d_beef;
    for _ in 0..200_000 {
        let x = next(&mut state);
        let a = (x >> 32) as u32;
        // A second operand within a few exponents of the first, of either sign.
        let shift = ((x >> 8) & 0x1F) as u32;
        let low = (x as u32) & 0x00FF_FFFF;
        let b = (a ^ (low << 3).wrapping_shr(shift % 8)).wrapping_add((shift << 23) / 4)
            ^ (((x >> 7) & 1) as u32) << 31;
        assert_eq!(abs_diff(a, b), machine_abs_diff(a, b), "{:#x} {:#x}", a, b);
        assert_eq!(abs_diff(b, a), machine_abs_diff(b, a), "{:#x} {:#x}", b, a);
    }
}

#[test]
fn abs_diff_agrees_with_the_machine_around_ties() {
    // Operands whose exact difference has bits just under the last place.
    for e in 1u32..250 {
        for gap in 0u32..30 {
            if e + gap > 254 {
                continue;
            }
            for fa in [0u32, 1, 2, 3, 0x7F_FFFF, 0x7F_FFFE, 0x40_0000, 0x40_0001] {
                for fb in [0u32, 1, 2, 3, 0x7F_FFFF, 0x7F_FFFE, 0x40_0000, 0x3F_FFFF] {
                    let a = ((e + gap) << 23) | fa;
                    let b = (e << 23) | fb;
                    for (x, y) in [(a, b), (a, b | 0x8000_0000), (a | 0x8000_0000, b)] {
                        assert_eq!(abs_diff(x, y), machine_abs_diff(x, y), "{:#x} {:#x}", x, y);
                        assert_eq!(abs_diff(y, x), machine_abs_diff(y, x), "{:#x} {:#x}", y, x);
                    }
                }
            }
        }
    }
}

#[test]
fn abs_diff_of_one_and_two_is_one() {
    assert_eq!(abs_diff(1.0f32.to_bits(), 2.0f32.to_bits()), Some(1.0f32.to_bits()));
    assert_eq!(abs_diff(2.0f32.to_bits(), 1.0f32.to_bits()), Some(1.0f32.to_bits()));
}

#[test]
fn abs_diff_with_something_not_a_number_is_none() {
    assert_eq!(abs_diff(f32::NAN.to_bits(), 1.0f32.to_bits()), None);
    assert_eq!(abs_diff(1.0f32.to_bits(), f32::NAN.to_bits()), None);
    assert_eq!(abs_diff(f32::INFINITY.to_bits(), f32::INFINITY.to_bits()), None);
    assert_eq!(
        abs_diff(f32::NEG_INFINITY.to_bits(), f32::NEG_INFINITY.to_bits()),
        None
    );
}

#[test]
fn abs_diff_with_an_infinity_is_infinite() {
    let inf = f32::INFINITY.to_bits();
    assert_eq!(abs_diff(inf, f32::NEG_INFINITY.to_bits()), Some(inf));
    assert_eq!(abs_diff(inf, 3.5f32.to_bits()), Some(inf));
    assert_eq!(abs_diff(f32::MIN.to_bits(), f32::NEG_INFINITY.to_bits()), Some(inf));
}

#[test]
fn abs_diff_overflows_to_infinity() {
    assert_eq!(
        abs_diff(f32::MAX.to_bits(), f32::MIN.to_bits()),
        Some(f32::INFINITY.to_bits())
    );
}

#[test]
fn round_to_nearest_agrees_with_the_machine() {
    let mut state: u64 = 77;
    for _ in 0..100_000 {
        let x = next(&mut state);
        let units = x >> 14;
        let exp = ((x & 0xFF) % 254) as u32;
        // `units as f32` rounds to nearest, ties to even; the scaling by a
        // power of two is exact where nothing leaves the normal range, so
        // the scale is kept clear of both ends here.
        if exp < 100 {
            continue;
        }
        let want = (units as f32) * 2f32.powi(exp as i32 - 149);
        assert_eq!(round_to_nearest(units, exp), want.to_bits(), "{} {}", units, exp);
    }
}

#[test]
fn round_to_nearest_agrees_with_a_narrowing_conversion() {
    // A double holds `units * 2^exp` exactly where `units` is below 2^53,
    // and its conversion to single precision rounds once, to nearest, ties
    // to even, whether the result is subnormal, normal or infinite.
    let mut state: u64 = 2024;
    for _ in 0..200_000 {
        let x = next(&mut state);
        let units = x >> (11 + (next(&mut state) % 53));
        let exp = (next(&mut state) % 254) as u32;
        let want = ((units as f64) * 2f64.powi(exp as i32 - 149)) as f32;
        assert_eq!(round_to_nearest(units, exp), want.to_bits(), "{} {}", units, exp);
    }
}

#[test]
fn round_to_nearest_takes_any_scale() {
    assert_eq!(round_to_nearest(0, 4_000_000_000), 0);
    assert_eq!(round_to_nearest(1, 254), (255 - 23) << 23);
    assert_eq!(round_to_nearest(1, 276), 254 << 23);
    assert_eq!(round_to_nearest(1, 277), 0x7F80_0000);
    assert_eq!(round_to_nearest(1, 4_000_000_000), 0x7F80_0000);
    assert_eq!(round_to_nearest(u64::MAX, 0), ((u64::MAX as f32) * 2f32.powi(-149)).to_bits());
    assert_eq!(round_to_nearest(u64::MAX, 253), 0x7F80_0000);
}

#[test]
fn round_to_nearest_breaks_ties_to_even() {
    // 2^24 + 1 lies midway between 2^24 and 2^24 + 2.
    assert_eq!(round_to_nearest(0x100_0001, 0), ((0x100_0000u32 as f32) * 2f32.powi(-149)).to_bits());
    // 2^24 + 3 lies midway between 2^24 + 2 and 2^24 + 4.
    assert_eq!(round_to_nearest(0x100_0003, 0), ((0x100_0004u32 as f32) * 2f32.powi(-149)).to_bits());
    assert_eq!(round_to_nearest(0, 0), 0);
    assert_eq!(round_to_nearest(1, 0), 1);
    assert_eq!(round_to_nearest(1, 253), 231 << 23);
    assert_eq!(round_to_nearest(0x80_0000, 253), 254 << 23);
    assert_eq!(round_to_nearest(0xFF_FFFF, 253), 0x7F7F_FFFF);
    assert_eq!(round_to_nearest(0x1FF_FFFF, 253), 0x7F80_0000);
}

#[test]
fn max_abs_diff_is_the_largest_difference() {
    let a: Vec<u32> = [1.0f32, 2.0, 3.0, 4.0].iter().map(|x| x.to_bits()).collect();
    let b: Vec<u32> = [1.0f32, 2.5, 2.0, 4.25].iter().map(|x| x.to_bits()).collect();
    assert_eq!(max_abs_diff(&a, &b), 1.0f32.to_bits());
}

#[test]
fn max_abs_diff_of_a_buffer_and_itself_is_zero() {
    let a: Vec<u32> = [1.0f32, -2.0, f32::NAN, f32::INFINITY, 0.0]
        .iter()
        .map(|x| x.to_bits())
        .collect();
    assert_eq!(max_abs_diff(&a, &a), 0);
    assert_eq!(max_abs_diff(&[], &[]), 0);
}

#[test]
fn max_abs_diff_passes_over_what_is_not_a_number() {
    let a: Vec<u32> = [f32::NAN, 1.0, f32::INFINITY].iter().map(|x| x.to_bits()).collect();
    let b: Vec<u32> = [0.0f32, 1.5, f32::INFINITY].iter().map(|x| x.to_bits()).collect();
    assert_eq!(max_abs_diff(&a, &b), 0.5f32.to_bits());
}

#[test]
fn max_abs_diff_agrees_with_a_fold_over_floats() {
    let mut state: u64 = 4242;
    for _ in 0..200 {
        let n = (next(&mut state) % 50) as usize;
        let mut a = Vec::new();
        let mut b = Vec::new();
        for _ in 0..n {
            let x = next(&mut state);
            let pa = f32::from_bits(0x3F00_0000 | ((x >> 40) as u32 & 0x03FF_FFFF));
            let pb = f32::from_bits(0x3F00_0000 | ((x >> 8) as u32 & 0x03FF_FFFF));
            a.push(if x & 1 == 1 { -pa } else { pa });
            b.push(if x & 2 == 2 { -pb } else { pb });
        }
        let want = a.iter().zip(b.iter()).fold(0.0f32, |acc, (p, d)| {
            let diff = (p - d).abs();
            if diff > acc {
                diff
            } else {
                acc
            }
        });
        let ab: Vec<u32> = a.iter().map(|x| x.to_bits()).collect();
        let bb: Vec<u32> = b.iter().map(|x| x.to_bits()).collect();
        assert_eq!(max_abs_diff(&ab, &bb), want.to_bits());
    }
}

#[test]
fn exceeds_agrees_with_the_machine() {
    for &a in NOTABLE.iter() {
        for &b in NOTABLE.iter() {
            assert_eq!(
                exceeds(a, b),
                f32::from_bits(a) > f32::from_bits(b),
                "{:#x} {:#x}",
                a,
                b
            );
        }
    }
    let mut state: u64 = 99;
    for _ in 0..100_000 {
        let x = next(&mut state);
        let a = (x >> 32) as u32;
        let b = x as u32;
        assert_eq!(exceeds(a, b), f32::from_bits(a) > f32::from_bits(b));
    }
}

#[test]
fn exceeds_is_false_at_the_tolerance_itself() {
    let t = 0.001f32.to_bits();
    assert!(!exceeds(t, t));
    assert!(exceeds(t + 1, t));
    assert!(!exceeds(t - 1, t));
    assert!(!exceeds(0, 0x8000_0000));
}
