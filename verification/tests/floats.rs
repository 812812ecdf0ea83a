use sp_ipld::float::{narrow_bits, top_bit_of, widen_bits};

fn expected_narrow(bits: u64) -> Option<u32> {
    let x = f64::from_bits(bits);
    let single = x as f32;
    if !x.is_finite() {
        None
    } else if (single as f64).to_bits() == bits {
        Some(single.to_bits())
    } else {
        None
    }
}

fn interesting_doubles() -> Vec<u64> {
    let mut all = vec![
        0,
        1,
        2,
        0x8000_0000_0000_0000,
        0x8000_0000_0000_0001,
        0x000f_ffff_ffff_ffff,
        0x0010_0000_0000_0000,
        0x7fef_ffff_ffff_ffff,
        0x7ff0_0000_0000_0000,
        0xfff0_0000_0000_0000,
        0x7ff8_0000_0000_0000,
        0x7ff0_0000_0000_0001,
        1.0f64.to_bits(),
        1.5f64.to_bits(),
        0.1f64.to_bits(),
        (-2.5f64).to_bits(),
        (f32::MAX as f64).to_bits(),
        (f32::MAX as f64).to_bits() + 1,
        (f32::MAX as f64 * 2.0).to_bits(),
        (f32::MIN_POSITIVE as f64).to_bits(),
        (f32::MIN_POSITIVE as f64).to_bits() - 1,
        (f32::MIN_POSITIVE as f64 / 2.0).to_bits(),
        (f32::from_bits(1) as f64).to_bits(),
        (f32::from_bits(1) as f64 / 2.0).to_bits(),
        (f32::from_bits(3) as f64).to_bits(),
        (f32::from_bits(0x007f_ffff) as f64).to_bits(),
        (f32::from_bits(0x807f_ffff) as f64).to_bits(),
        (f32::from_bits(0x0040_0000) as f64).to_bits(),
        f64::MAX.to_bits(),
        f64::MIN_POSITIVE.to_bits(),
    ];
    for e in 0..2048u64 {
        all.push(e << 52);
        all.push((e << 52) | 1);
        all.push((e << 52) | (1 << 29));
        all.push((e << 52) | (1 << 28));
        all.push((e << 52) | 0x000f_ffff_e000_0000);
        all.push((1 << 63) | (e << 52) | 0x0008_0000_0000_0000);
        for p in 0..52u64 {
            all.push((e << 52) | (1 << p));
        }
    }
    all
}

#[test]
fn widen_is_the_conversion_to_double() {
    let mut singles: Vec<u32> = vec![0, 1, 2, 3, 0x8000_0000, 0x8000_0001, 0x7f7f_ffff, 0x7f80_0000, 0xff80_0000];
    for e in 0..256u32 {
        for f in [0u32, 1, 2, 0x40_0000, 0x7f_ffff, 0x12_3456, 0x00_0100] {
            singles.push((e << 23) | f);
            singles.push((1 << 31) | (e << 23) | f);
        }
    }
    for p in 0..23u32 {
        singles.push(1 << p);
        singles.push((1 << p) | 1);
        singles.push((1 << 31) | (1 << p));
    }
    for s in singles {
        let x = f32::from_bits(s);
        if x.is_nan() {
            assert_eq!(widen_bits(s), 0x7ff8_0000_0000_0000);
            assert!(f64::from_bits(widen_bits(s)).is_nan());
        } else {
            assert_eq!(widen_bits(s), (x as f64).to_bits(), "single {:#x}", s);
        }
    }
}

#[test]
fn narrow_is_the_conversion_to_single_where_nothing_is_lost() {
    for bits in interesting_doubles() {
        if f64::from_bits(bits).is_finite() {
            assert_eq!(narrow_bits(bits), expected_narrow(bits), "double {:#x}", bits);
        }
    }
}

#[test]
fn narrow_of_widen_gives_the_single_back() {
    let mut state: u32 = 0x1234_5678;
    for _ in 0..20000 {
        state = state.wrapping_mul(1664525).wrapping_add(1013904223);
        let s = state;
        if f32::from_bits(s).is_nan() || f32::from_bits(s).is_infinite() {
            continue;
        }
        assert_eq!(narrow_bits(widen_bits(s)), Some(s));
    }
    assert_eq!(narrow_bits(widen_bits(0)), Some(0));
    assert_eq!(narrow_bits(widen_bits(1)), Some(1));
    assert_eq!(narrow_bits(widen_bits(0x8000_0000)), Some(0x8000_0000));
}

#[test]
fn narrow_of_random_doubles() {
    let mut state: u64 = 0x9e37_79b9_7f4a_7c15;
    for _ in 0..20000 {
        state = state.wrapping_mul(6364136223846793005).wrapping_add(1442695040888963407);
        let bits = state;
        if f64::from_bits(bits).is_finite() {
            assert_eq!(narrow_bits(bits), expected_narrow(bits), "double {:#x}", bits);
        }
        let near = (f32::from_bits((state >> 32) as u32) as f64).to_bits() ^ (state & 1);
        if f64::from_bits(near).is_finite() {
            assert_eq!(narrow_bits(near), expected_narrow(near), "double {:#x}", near);
        }
    }
}

#[test]
fn top_bit_is_the_highest_bit_set() {
    assert_eq!(top_bit_of(0), 0);
    assert_eq!(top_bit_of(1), 0);
    assert_eq!(top_bit_of(2), 1);
    assert_eq!(top_bit_of(3), 1);
    assert_eq!(top_bit_of(0x40_0000), 22);
    assert_eq!(top_bit_of(0x7f_ffff), 22);
    assert_eq!(top_bit_of(u32::MAX), 31);
}
