//! The numbers of the library against the machine's own single precision.

use fastrq::Binary32;
use rand::rngs::StdRng;
use rand::{Rng, SeedableRng};

fn number(x: f32) -> Binary32 {
    Binary32::from_bits(x.to_bits())
}

fn value(x: Binary32) -> f32 {
    f32::from_bits(x.to_bits())
}

/// Same bits, or both NaN.
fn same(x: Binary32, y: f32) -> bool {
    x.to_bits() == y.to_bits() || (value(x).is_nan() && y.is_nan())
}

fn specials() -> Vec<f32> {
    let mut v: Vec<f32> = vec![
        0.0,
        1.0,
        0.5,
        1.5,
        2.0,
        3.0,
        15.0,
        255.0,
        256.0,
        16_777_215.0,
        16_777_216.0,
        f32::MIN_POSITIVE,
        f32::from_bits(1),
        f32::from_bits(2),
        f32::from_bits(0x007f_ffff),
        f32::from_bits(0x0080_0001),
        f32::MAX,
        f32::from_bits(0x7f7f_fffe),
        f32::INFINITY,
        f32::NAN,
        f32::EPSILON,
        1.0 + f32::EPSILON,
    ];
    let negatives: Vec<f32> = v.iter().map(|x| -x).collect();
    v.extend(negatives);
    v
}

fn check(a: f32, b: f32) {
    let (x, y) = (number(a), number(b));
    assert!(same(x.add(y), a + b), "{a:e} + {b:e}");
    assert!(same(x.sub(y), a - b), "{a:e} - {b:e}");
    assert!(same(x.mul(y), a * b), "{a:e} * {b:e}");
    assert!(same(x.div(y), a / b), "{a:e} / {b:e}");
    assert_eq!(x.le(y), a <= b, "{a:e} <= {b:e}");
    assert_eq!(x.lt(y), a < b, "{a:e} < {b:e}");
    assert_eq!(x == y, a == b, "{a:e} == {b:e}");
    if a != b {
        assert!(same(x.min(y), a.min(b)), "min({a:e}, {b:e})");
        assert!(same(x.max(y), a.max(b)), "max({a:e}, {b:e})");
    }
}

#[test]
fn operations_agree_on_special_values() {
    let v = specials();
    for &a in &v {
        for &b in &v {
            check(a, b);
        }
    }
}

#[test]
fn operations_agree_on_random_patterns() {
    let mut rng = StdRng::seed_from_u64(17);
    for _ in 0..400_000 {
        let a = f32::from_bits(rng.gen());
        let b = f32::from_bits(rng.gen());
        check(a, b);
    }
}

#[test]
fn operations_agree_on_close_magnitudes() {
    let mut rng = StdRng::seed_from_u64(18);
    for _ in 0..400_000 {
        let a: u32 = rng.gen();
        let delta: u32 = rng.gen_range(0..0x0400_0000);
        let b = a.wrapping_add(delta) ^ (rng.gen::<u32>() & 0x8000_0000);
        check(f32::from_bits(a), f32::from_bits(b));
    }
}

#[test]
fn operations_agree_on_small_numbers() {
    let mut rng = StdRng::seed_from_u64(19);
    for _ in 0..200_000 {
        let a: u32 = rng.gen_range(0..0x0180_0000);
        let b: u32 = rng.gen_range(0..0x0180_0000) ^ (rng.gen::<u32>() & 0x8000_0000);
        check(f32::from_bits(a), f32::from_bits(b));
        check(f32::from_bits(a), rng.gen_range(0.25f32..4.0));
    }
}

#[test]
fn ties_go_to_the_even_neighbour() {
    // 2^24 + 1 and 2^24 + 3 lie halfway between two numbers.
    assert_eq!(value(Binary32::from_u64(16_777_217)), 16_777_216.0);
    assert_eq!(value(Binary32::from_u64(16_777_219)), 16_777_220.0);
    let x = number(16_777_216.0);
    assert_eq!(value(x.add(number(1.0))), 16_777_216.0);
    assert_eq!(value(x.add(number(3.0))), 16_777_220.0);
}

#[test]
fn integers_are_converted_to_the_nearest_number() {
    let mut rng = StdRng::seed_from_u64(20);
    for n in 0..100_000u64 {
        assert_eq!(value(Binary32::from_u64(n)), n as f32);
    }
    for shift in 0..64u32 {
        for _ in 0..500 {
            let n = rng.gen::<u64>() >> shift;
            assert_eq!(value(Binary32::from_u64(n)), n as f32, "{n}");
        }
    }
    assert_eq!(value(Binary32::from_u64(u64::MAX)), u64::MAX as f32);
}

#[test]
fn bytes_are_cut_off_and_saturated() {
    let mut rng = StdRng::seed_from_u64(21);
    for x in specials() {
        assert_eq!(number(x).to_u8(), x as u8, "{x:e}");
    }
    for _ in 0..200_000 {
        let x = rng.gen_range(-10.0f32..300.0);
        assert_eq!(number(x).to_u8(), x as u8, "{x}");
        let y = f32::from_bits(rng.gen());
        assert_eq!(number(y).to_u8(), y as u8, "{y:e}");
    }
    assert_eq!(number(255.99).to_u8(), 255);
    assert_eq!(number(256.0).to_u8(), 255);
    assert_eq!(number(f32::NAN).to_u8(), 0);
}

#[test]
fn nan_gives_way_in_min_and_max() {
    let (n, x) = (number(f32::NAN), number(2.5));
    assert_eq!(value(n.min(x)), 2.5);
    assert_eq!(value(x.min(n)), 2.5);
    assert_eq!(value(n.max(x)), 2.5);
    assert_eq!(value(x.max(n)), 2.5);
    assert!(n.is_nan());
    assert!(!x.is_nan());
    assert!(n != n);
    assert!(number(0.0) == number(-0.0));
}

#[test]
fn negation_flips_the_sign_bit() {
    assert_eq!(number(1.5).neg().to_bits(), (-1.5f32).to_bits());
    assert_eq!(number(-0.0).neg().to_bits(), 0);
    assert_eq!(
        number(f32::INFINITY).neg().to_bits(),
        f32::NEG_INFINITY.to_bits()
    );
}
