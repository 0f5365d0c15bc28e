use gradrs::scalar::Scalar;

fn agrees(got: Scalar, want: f32) -> bool {
    let got = f32::from_bits(got.to_bits());
    if want.is_nan() {
        got.is_nan()
    } else {
        got.to_bits() == want.to_bits()
    }
}

fn step(state: &mut u64) -> u32 {
    let mut x = *state;
    x ^= x << 13;
    x ^= x >> 7;
    x ^= x << 17;
    *state = x;
    (x >> 16) as u32
}

fn near(state: &mut u64, a: u32) -> u32 {
    let exponent = (a >> 23) & 0xff;
    let shift = step(state) % 61;
    let moved = (exponent + shift).saturating_sub(30).min(255);
    (step(state) & 0x807f_ffff) | (moved << 23)
}

fn edge_values() -> Vec<u32> {
    let magnitudes: Vec<u32> = vec![
        0x0000_0000,
        0x0000_0001,
        0x0000_0002,
        0x0000_0003,
        0x0040_0000,
        0x007f_ffff,
        0x0080_0000,
        0x0080_0001,
        0x00ff_ffff,
        0x0100_0000,
        0x3380_0000,
        0x33ff_ffff,
        0x3400_0000,
        0x3f00_0000,
        0x3f7f_ffff,
        0x3f80_0000,
        0x3f80_0001,
        0x3fc0_0000,
        0x4000_0000,
        0x4040_0000,
        0x40c0_0000,
        0x4b00_0000,
        0x4b7f_ffff,
        0x4b80_0000,
        0x4b80_0001,
        0x7f00_0000,
        0x7f7f_fffe,
        0x7f7f_ffff,
        0x7f80_0000,
        0x7f80_0001,
        0x7fc0_0000,
        0x7fff_ffff,
    ];
    let mut all = Vec::new();
    for m in magnitudes {
        all.push(m);
        all.push(m | 0x8000_0000);
    }
    all
}

fn check_pair(a: u32, b: u32) {
    let (x, y) = (Scalar::from_bits(a), Scalar::from_bits(b));
    let (fx, fy) = (f32::from_bits(a), f32::from_bits(b));
    assert!(agrees(x.add(y), fx + fy), "{:#x} + {:#x} gave {:#x}", a, b, x.add(y).to_bits());
    assert!(agrees(x.sub(y), fx - fy), "{:#x} - {:#x} gave {:#x}", a, b, x.sub(y).to_bits());
    assert!(agrees(x.mul(y), fx * fy), "{:#x} * {:#x} gave {:#x}", a, b, x.mul(y).to_bits());
    assert!(agrees(x.div(y), fx / fy), "{:#x} / {:#x} gave {:#x}", a, b, x.div(y).to_bits());
}

#[test]
fn arithmetic_matches_hardware_on_edge_values() {
    let edges = edge_values();
    for &a in &edges {
        for &b in &edges {
            check_pair(a, b);
        }
    }
}

#[test]
fn arithmetic_matches_hardware_on_scattered_values() {
    let mut state: u64 = 0x9e37_79b9_7f4a_7c15;
    for _ in 0..150_000 {
        let a = step(&mut state);
        let b = step(&mut state);
        check_pair(a, b);
    }
}

#[test]
fn arithmetic_matches_hardware_on_neighbouring_exponents() {
    let mut state: u64 = 0x2545_f491_4f6c_dd1d;
    for _ in 0..150_000 {
        let a = step(&mut state);
        let b = near(&mut state, a);
        check_pair(a, b);
        check_pair(b, a);
    }
}

#[test]
fn arithmetic_matches_hardware_near_cancellation() {
    let mut state: u64 = 0x0123_4567_89ab_cdef;
    for _ in 0..100_000 {
        let a = step(&mut state);
        let wiggle = step(&mut state) % 5;
        let b = (a ^ 0x8000_0000).wrapping_add(wiggle).wrapping_sub(2);
        check_pair(a, b);
    }
}

#[test]
fn signs_of_zero_results() {
    let pz = Scalar::zero();
    let nz = Scalar::zero().neg();
    assert_eq!(nz.to_bits(), 0x8000_0000);
    assert_eq!(pz.add(nz).to_bits(), 0);
    assert_eq!(nz.add(nz).to_bits(), 0x8000_0000);
    assert_eq!(Scalar::one().sub(Scalar::one()).to_bits(), 0);
    assert_eq!(nz.mul(Scalar::one()).to_bits(), 0x8000_0000);
}

#[test]
fn division_by_zero_is_not_guarded() {
    let six = Scalar::from_i32(6);
    let quotient = six.div(Scalar::zero());
    assert_eq!(f32::from_bits(quotient.to_bits()), f32::INFINITY);
    let negative = six.neg().div(Scalar::zero());
    assert_eq!(f32::from_bits(negative.to_bits()), f32::NEG_INFINITY);
    assert!(Scalar::zero().div(Scalar::zero()).is_nan());
    assert!(f32::from_bits(Scalar::zero().div(Scalar::zero()).to_bits()).is_nan());
}

#[test]
fn integers_convert_with_one_rounding() {
    let samples: Vec<i32> = vec![
        0, 1, -1, 2, 3, 6, 10, 255, -4096, 8_388_607, 8_388_608, -8_388_608, 16_777_215,
        16_777_216, 16_777_217, 16_777_218, 16_777_219, 33_554_431, 123_456_789, -123_456_789,
        i32::MAX, i32::MIN, i32::MIN + 1,
    ];
    for k in samples {
        assert_eq!(Scalar::from_i32(k).to_bits(), (k as f32).to_bits(), "{}", k);
    }
    let mut state: u64 = 0xfeed_beef_cafe_f00d;
    for _ in 0..50_000 {
        let k = step(&mut state) as i32;
        assert_eq!(Scalar::from_i32(k).to_bits(), (k as f32).to_bits(), "{}", k);
    }
}

#[test]
fn comparisons_with_zero() {
    let mut state: u64 = 0x1357_9bdf_0246_8ace;
    let mut values = edge_values();
    for _ in 0..10_000 {
        values.push(step(&mut state));
    }
    for a in values {
        let x = Scalar::from_bits(a);
        let f = f32::from_bits(a);
        assert_eq!(x.gt_zero(), f > 0.0);
        assert_eq!(x.lt_zero(), f < 0.0);
        assert_eq!(x.is_nan(), f.is_nan());
        assert_eq!(x.neg().to_bits(), (-f).to_bits());
    }
}

#[test]
fn named_constants() {
    assert_eq!(f32::from_bits(Scalar::zero().to_bits()), 0.0);
    assert_eq!(f32::from_bits(Scalar::one().to_bits()), 1.0);
    assert_eq!(Scalar::one().to_bits(), Scalar::from_i32(1).to_bits());
}

#[test]
fn one_is_neutral_for_products() {
    let mut state: u64 = 0x0f0f_1234_5678_9abc;
    let mut values = edge_values();
    for _ in 0..50_000 {
        values.push(step(&mut state));
    }
    let one = Scalar::one();
    for a in values {
        let x = Scalar::from_bits(a);
        if x.is_nan() {
            assert!(x.mul(one).is_nan());
            assert!(one.mul(x).is_nan());
        } else {
            assert_eq!(x.mul(one).to_bits(), a);
            assert_eq!(one.mul(x).to_bits(), a);
        }
    }
}

#[test]
fn zero_is_neutral_for_sums_but_for_the_negative_zero() {
    let mut state: u64 = 0x7777_1234_5678_9abc;
    let mut values = edge_values();
    for _ in 0..50_000 {
        values.push(step(&mut state));
    }
    let zero = Scalar::zero();
    for a in values {
        let x = Scalar::from_bits(a);
        if x.is_nan() {
            assert!(x.add(zero).is_nan());
        } else if a == 0x8000_0000 {
            assert_eq!(x.add(zero).to_bits(), 0);
            assert_eq!(zero.add(x).to_bits(), 0);
        } else {
            assert_eq!(x.add(zero).to_bits(), a);
            assert_eq!(zero.add(x).to_bits(), a);
        }
    }
}

#[test]
fn a_far_smaller_addend_leaves_the_larger_one() {
    let big = Scalar::from_bits(0x4b80_0000);
    let tiny = Scalar::from_bits(0x0000_0001);
    assert_eq!(big.add(tiny).to_bits(), 0x4b80_0000);
    assert_eq!(big.sub(tiny).to_bits(), 0x4b80_0000);
    assert_eq!(tiny.sub(big).to_bits(), 0xcb80_0000);
    let one = Scalar::one();
    let below_half_step = Scalar::from_bits(0x3300_0000);
    let half_step = Scalar::from_bits(0x3380_0000);
    assert_eq!(one.add(below_half_step).to_bits(), 0x3f80_0000);
    assert_eq!(one.add(half_step).to_bits(), 0x3f80_0000);
    assert_eq!(Scalar::from_bits(0x3f80_0001).add(half_step).to_bits(), 0x3f80_0002);
    assert_eq!(one.sub(below_half_step).to_bits(), 0x3f80_0000);
    assert_eq!(one.sub(half_step).to_bits(), 0x3f7f_ffff);
}

#[test]
fn dividing_by_one_changes_nothing() {
    let mut state: u64 = 0x4242_1234_5678_9abc;
    let mut values = edge_values();
    for _ in 0..50_000 {
        values.push(step(&mut state));
    }
    for a in values {
        let x = Scalar::from_bits(a);
        if x.is_nan() {
            assert!(x.div(Scalar::one()).is_nan());
        } else {
            assert_eq!(x.div(Scalar::one()).to_bits(), a);
        }
    }
}
