//! Properties of the quantizer as a whole, on concrete vectors.

use fastrq::hadamard::{block64_fwht256, fwht64};
use fastrq::{Binary32, Bits, FastRotation, Metric, RotationalQuantizer, RqCode};

fn numbers(x: &[f32]) -> Vec<Binary32> {
    x.iter().map(|v| Binary32::from_bits(v.to_bits())).collect()
}

fn value(x: Binary32) -> f32 {
    f32::from_bits(x.to_bits())
}

fn values(x: &[Binary32]) -> Vec<f32> {
    x.iter().map(|&v| value(v)).collect()
}

/// Entries between minus one and one.
fn entries(n: usize, seed: u32) -> Vec<f32> {
    let mut state = seed;
    (0..n)
        .map(|_| {
            state = state.wrapping_mul(1_664_525).wrapping_add(1_013_904_223);
            (state >> 8) as f32 / 8_388_608.0 - 1.0
        })
        .collect()
}

fn unit(n: usize, seed: u32) -> Vec<f32> {
    let x = entries(n, seed);
    let norm = norm(&x) as f32;
    x.iter().map(|v| v / norm).collect()
}

fn norm(x: &[f32]) -> f64 {
    x.iter().map(|&v| v as f64 * v as f64).sum::<f64>().sqrt()
}

#[test]
fn norms_are_kept_to_a_thousandth() {
    let r = FastRotation::new(200, 3, 7);
    let x = entries(200, 3);
    let rx = values(&r.rotate(&numbers(&x)));
    assert_eq!(rx.len(), 256);
    assert!((norm(&x) - norm(&rx)).abs() < 1e-3);
}

#[test]
fn round_trips_stay_within_a_ten_thousandth() {
    for n in [1, 64, 500, 1000] {
        let r = FastRotation::new(n, 3, 11);
        let x = entries(n, 5);
        let back = values(&r.unrotate(&r.rotate(&numbers(&x))));
        for (a, b) in x.iter().zip(&back) {
            assert!((a - b).abs() < 1e-4);
        }
        assert!(back[n..].iter().all(|v| v.abs() < 1e-4));
    }
}

#[test]
fn four_bit_coordinates_are_restored_to_half_a_step() {
    for n in [64, 300, 1500] {
        let q = RotationalQuantizer::with_seed(n, Bits::Four, Metric::Cosine, 2);
        let x = numbers(&unit(n, 8));
        let code = q.encode(&x);
        let half = value(code.step()) as f64 / 2.0;
        let restored = values(&q.restore_rotated(&code));
        for (a, b) in values(&q.rotation().rotate(&x)).iter().zip(&restored) {
            assert!((*a as f64 - *b as f64).abs() <= half + 1e-6);
        }
    }
}

#[test]
fn eight_bit_coordinates_are_restored_by_the_size_of_the_entries() {
    for s in [0.001f32, 1.0, 1000.0] {
        let n = 400;
        let q = RotationalQuantizer::with_seed(n, Bits::Eight, Metric::Dot, 6);
        let x = numbers(&entries(n, 4).iter().map(|v| v * s).collect::<Vec<f32>>());
        let restored = values(&q.restore_rotated(&q.encode(&x)));
        let bound = s as f64 * (n as f64).sqrt() / 128.0;
        for (a, b) in values(&q.rotation().rotate(&x)).iter().zip(&restored) {
            assert!((*a as f64 - *b as f64).abs() <= bound);
        }
    }
}

#[test]
fn decoded_vectors_are_off_by_what_the_steps_allow() {
    for bits in [Bits::Four, Bits::Eight] {
        let n = 700;
        let q = RotationalQuantizer::with_seed(n, bits, Metric::L2, 13);
        let x = unit(n, 21);
        let code = q.encode(&numbers(&x));
        let top = if bits == Bits::Four { 15.0 } else { 255.0 };
        let each = value(code.step()) as f64 * (0.5 + (6.0 * top + 1.0) / 16_777_216.0)
            + value(code.lower()).abs() as f64 / 16_777_216.0;
        let all = (q.output_dim() as f64).sqrt() * each;
        let mut off = values(&q.decode(&code));
        for (a, b) in off.iter_mut().zip(&x) {
            *a -= b;
        }
        assert!(norm(&off) <= all + 3e-6 * (all + norm(&x)));
    }
}

#[test]
fn powers_of_two_pass_through_a_code() {
    for bits in [Bits::Four, Bits::Eight] {
        for k in [1, 5, 20] {
            let factor = (1u32 << k) as f32;
            let q = RotationalQuantizer::with_seed(300, bits, Metric::Dot, 40);
            let x = entries(300, 17);
            let y: Vec<f32> = x.iter().map(|v| v * factor).collect();
            let (a, b) = (q.encode(&numbers(&x)), q.encode(&numbers(&y)));
            assert_eq!(a.codes(), b.codes());
            assert_eq!(value(a.lower()) * factor, value(b.lower()));
            assert_eq!(value(a.step()) * factor, value(b.step()));
            assert_eq!(value(a.code_sum()) * factor, value(b.code_sum()));
            assert_eq!(value(a.norm2()) * factor * factor, value(b.norm2()));
            let (rx, ry) = (
                q.rotation().rotate(&numbers(&x)),
                q.rotation().rotate(&numbers(&y)),
            );
            let up: Vec<f32> = values(&rx).iter().map(|v| v * factor).collect();
            assert_eq!(up, values(&ry));
        }
    }
}

#[test]
fn the_part_of_a_block_is_half_of_its_own_transform() {
    let x = entries(64, 30);
    let (mut a, mut b) = (numbers(&x), numbers(&x));
    fwht64(&mut a);
    block64_fwht256(&mut b);
    let doubled: Vec<f32> = values(&b).iter().map(|v| v * 2.0).collect();
    assert_eq!(values(&a), doubled);
    // Integers stay exact, so applying the part twice leaves a quarter.
    let x: Vec<f32> = (0..64).map(|i| i as f32 - 20.0).collect();
    let mut c = numbers(&x);
    block64_fwht256(&mut c);
    block64_fwht256(&mut c);
    let quarter: Vec<f32> = x.iter().map(|v| v / 4.0).collect();
    assert_eq!(values(&c), quarter);
}

#[test]
fn the_zero_code_is_at_a_fixed_distance() {
    for bits in [Bits::Four, Bits::Eight] {
        for (metric, seed) in [(Metric::Cosine, 1), (Metric::Dot, 2), (Metric::L2, 3)] {
            let q = RotationalQuantizer::with_seed(100, bits, metric, seed);
            let zero = q.encode(&numbers(&[0.0; 100]));
            assert_eq!(zero, RqCode::zero(128, bits));
            let code = q.encode(&numbers(&entries(100, seed as u32)));
            let want = match metric {
                Metric::Cosine => 1.0,
                Metric::Dot => 0.0,
                Metric::L2 => value(code.norm2()),
            };
            assert_eq!(value(q.distance(&zero, &code).unwrap()), want);
            assert_eq!(value(q.distance(&code, &zero).unwrap()), want);
        }
    }
}

#[test]
fn zeros_behind_a_vector_change_nothing() {
    for bits in [Bits::Four, Bits::Eight] {
        let q = RotationalQuantizer::with_seed(90, bits, Metric::Cosine, 77);
        let x = entries(90, 9);
        let mut padded = x.clone();
        padded.resize(128, 0.0);
        let code = q.encode(&numbers(&x));
        assert_eq!(code, q.encode(&numbers(&padded)));
        padded.resize(200, 5.0);
        assert_eq!(code, q.encode(&numbers(&padded)));
        assert_eq!(q.encode_to_bytes(&numbers(&x)), code.to_bytes());
        assert_eq!(code.to_bytes().len(), q.code_size());
    }
}

#[test]
fn dimensions_that_are_padded_alike_give_the_same_codes() {
    let p = RotationalQuantizer::with_seed(70, Bits::Eight, Metric::Cosine, 5);
    let q = RotationalQuantizer::with_seed(128, Bits::Eight, Metric::L2, 5);
    assert_eq!(p.rotation(), q.rotation());
    let x = numbers(&entries(70, 2));
    assert_eq!(p.encode(&x), q.encode(&x));
}

#[test]
fn rotation_keeps_products_and_distances_of_different_lengths() {
    let r = FastRotation::new(100, 3, 9);
    let (x, y) = (entries(100, 1), entries(60, 2));
    let (rx, ry) = (values(&r.rotate(&numbers(&x))), values(&r.rotate(&numbers(&y))));
    let dot = |a: &[f32], b: &[f32]| -> f64 {
        a.iter().zip(b).map(|(p, q)| *p as f64 * *q as f64).sum()
    };
    assert!((dot(&x, &y) - dot(&rx, &ry)).abs() < 1e-4);
    let mut long = y.clone();
    long.resize(100, 0.0);
    let d: Vec<f32> = x.iter().zip(&long).map(|(a, b)| a - b).collect();
    let rd: Vec<f32> = rx.iter().zip(&ry).map(|(a, b)| a - b).collect();
    assert!((norm(&d) - norm(&rd)).abs() < 1e-4);
}

#[test]
fn estimates_are_off_by_what_steps_and_rounding_allow() {
    for bits in [Bits::Four, Bits::Eight] {
        let n = 500;
        let q = RotationalQuantizer::with_seed(n, bits, Metric::Dot, 3);
        let (x, y) = (entries(n, 50), entries(n, 51));
        let (cx, cy) = (q.encode(&numbers(&x)), q.encode(&numbers(&y)));
        let exact: f64 = x.iter().zip(&y).map(|(a, b)| *a as f64 * *b as f64).sum();
        let top = if bits == Bits::Four { 15.0 } else { 255.0 };
        let off = |c: &RqCode, norm: f64| {
            (q.output_dim() as f64).sqrt() * value(c.step()) as f64
                * (0.5 + (3.0 * top + 1.0) / 16_777_216.0)
                + 1.47e-6 * norm
        };
        let (nx, ny) = (norm(&x), norm(&y));
        let (dx, dy) = (off(&cx, nx), off(&cy, ny));
        // The terms of the formula, which rounding takes its share of.
        let (lx, ly) = (value(cx.lower()) as f64, value(cy.lower()) as f64);
        let (sx, sy) = (value(cx.code_sum()) as f64, value(cy.code_sum()) as f64);
        let terms = (512.0 * lx * ly).abs() + (lx * sy).abs() + (ly * sx).abs() + 4.0 * sx * sy;
        let bound = nx * dy + ny * dx + dx * dy + 10.0 * terms / 16_777_216.0;
        let got = value(q.dot_estimate(&cx, &cy)) as f64;
        assert!((got - exact).abs() <= bound);
    }
}

#[test]
fn distances_are_the_rounded_formula() {
    for metric in [Metric::Cosine, Metric::Dot, Metric::L2] {
        let n = 200;
        let q = RotationalQuantizer::with_seed(n, Bits::Eight, metric, 8);
        let (cx, cy) = (
            q.encode(&numbers(&unit(n, 60))),
            q.encode(&numbers(&unit(n, 61))),
        );
        let dot = value(q.dot_estimate(&cx, &cy)) as f64;
        let norms = value(cx.norm2()) as f64 + value(cy.norm2()) as f64;
        let (want, bound) = match metric {
            Metric::Cosine => (1.0 - dot, (1.0 - dot).abs() / 16_777_216.0),
            Metric::Dot => (-dot, 0.0),
            Metric::L2 => (
                norms - 2.0 * dot,
                4.0 * (norms + 2.0 * dot.abs()) / 16_777_216.0,
            ),
        };
        let got = value(q.distance(&cx, &cy).unwrap()) as f64;
        assert!((got - want).abs() <= bound);
    }
}

#[test]
fn squared_norms_are_summed_with_little_rounding() {
    for n in [1, 100, 1000] {
        let q = RotationalQuantizer::with_seed(n, Bits::Eight, Metric::L2, 12);
        let x = entries(n, 33);
        let exact = norm(&x) * norm(&x);
        let got = value(q.encode(&numbers(&x)).norm2()) as f64;
        assert!((got - exact).abs() <= 1.02 * (n + 1) as f64 * exact / 16_777_216.0);
    }
}

#[test]
fn unit_vectors_with_fine_steps_are_decoded_to_a_hundredth() {
    let n = 64;
    let q = RotationalQuantizer::with_seed(n, Bits::Eight, Metric::Cosine, 1);
    let x = unit(n, 90);
    let code = q.encode(&numbers(&x));
    assert!((n as f64).sqrt() * value(code.step()) as f64 <= 1.0 / 51.0);
    for (a, b) in values(&q.decode(&code)).iter().zip(&x) {
        assert!((a - b).abs() < 1e-2);
    }
}

#[test]
fn squared_norms_of_many_entries_are_summed_with_bounded_rounding() {
    let n = 120_000;
    let q = RotationalQuantizer::with_seed(n, Bits::Four, Metric::L2, 12);
    let x = entries(n, 34);
    let exact = norm(&x) * norm(&x);
    let got = value(q.encode(&numbers(&x)).norm2()) as f64;
    assert!((got - exact).abs() <= 2.0 * (n + 1) as f64 * exact / 16_777_216.0);
}

#[test]
fn powers_of_two_pass_through_signs_of_any_size() {
    let r = FastRotation::new(256, 3, 19);
    let sizes = [1.0f32, 0.75, 3.0, 1.1, 0.5];
    let signs: Vec<Vec<Binary32>> = r
        .signs()
        .iter()
        .map(|round| {
            let scaled: Vec<f32> =
                values(round).iter().enumerate().map(|(i, v)| v * sizes[i % 5]).collect();
            numbers(&scaled)
        })
        .collect();
    let rotation = FastRotation::restore(256, 3, r.swaps().to_vec(), signs);
    for bits in [Bits::Four, Bits::Eight] {
        let q = RotationalQuantizer::from_rotation(200, bits, Metric::Dot, rotation.clone());
        let x = entries(200, 71);
        let y: Vec<f32> = x.iter().map(|v| v * 1024.0).collect();
        let (a, b) = (q.encode(&numbers(&x)), q.encode(&numbers(&y)));
        assert_eq!(a.codes(), b.codes());
        assert_eq!(value(a.lower()) * 1024.0, value(b.lower()));
        assert_eq!(value(a.step()) * 1024.0, value(b.step()));
        assert_eq!(value(a.code_sum()) * 1024.0, value(b.code_sum()));
        assert_eq!(value(a.norm2()) * 1_048_576.0, value(b.norm2()));
    }
}

#[test]
fn many_rounds_move_a_vector_by_no_more_than_their_drift() {
    for rounds in [4, 10, 100, 3000] {
        let drift = (25.0 / 8.0 + 819.0 * rounds as f64) / 1_677_700_000.0;
        let n = 60;
        let r = FastRotation::new(n, rounds, 15);
        let x = entries(n, 80);
        let rx = r.rotate(&numbers(&x));
        assert!((norm(&x) - norm(&values(&rx))).abs() <= 634.0 * drift);
        for (a, b) in values(&r.unrotate(&rx)).iter().zip(&x) {
            assert!((*a as f64 - *b as f64).abs() <= 64.0 * drift);
        }

        let q = RotationalQuantizer::from_rotation(n, Bits::Eight, Metric::Dot, r);
        let code = q.encode(&numbers(&x));
        let each = value(code.step()) as f64 * (0.5 + 1531.0 / 16_777_216.0)
            + value(code.lower()).abs() as f64 / 16_777_216.0;
        let all = 8.0 * each;
        let moved = norm(&x) * (1.0 + drift) + all;
        let mut off = values(&q.decode(&code));
        for (a, b) in off.iter_mut().zip(&x) {
            *a -= b;
        }
        assert!(norm(&off) <= all + drift * (norm(&x) + moved));
        let bound = norm(&x) * (1.0 + drift) / 254.0;
        let restored = values(&q.restore_rotated(&code));
        for (a, b) in values(&rx).iter().zip(&restored) {
            assert!((*a as f64 - *b as f64).abs() <= bound);
        }
    }
}

#[test]
fn clones_are_what_was_cloned() {
    let q = RotationalQuantizer::with_seed(100, Bits::Four, Metric::Cosine, 5);
    assert_eq!(q.clone(), q);
    let x = numbers(&unit(100, 6));
    let code = q.encode(&x);
    assert_eq!(code.clone(), code);
    assert_eq!(q.clone().encode(&x).to_bytes(), code.clone().to_bytes());
}
