//! Quantizers and distances on inputs whose codes are known exactly.

use fastrq::{
    Binary32, Bits, Error, FastRotation, Metric, RotationalQuantizer, RqCode, RQ_METADATA_SIZE,
};

fn numbers(x: &[f32]) -> Vec<Binary32> {
    x.iter().map(|v| Binary32::from_bits(v.to_bits())).collect()
}

fn value(x: Binary32) -> f32 {
    f32::from_bits(x.to_bits())
}

fn values(x: &[Binary32]) -> Vec<f32> {
    x.iter().map(|&v| value(v)).collect()
}

/// A quantizer of 64 dimensions whose rotation changes nothing.
fn plain(bits: Bits, metric: Metric) -> RotationalQuantizer {
    let rotation = FastRotation::restore(64, 0, vec![], vec![]);
    RotationalQuantizer::from_rotation(64, bits, metric, rotation)
}

/// Every 4-bit code four times.
fn staircase() -> Vec<f32> {
    (0..64).map(|i| (i % 16) as f32).collect()
}

#[test]
fn four_bit_codes_are_packed_in_halves() {
    let q = plain(Bits::Four, Metric::Dot);
    let mut x = staircase();
    x[32] = 7.0;
    let code = q.encode(&numbers(&x));
    assert_eq!(code.codes().len(), 32);
    assert_eq!(code.codes()[0], 0x70);
    assert_eq!(code.codes()[1], 0x11);
    assert_eq!(code.codes()[15], 0xff);
    assert_eq!(code.codes()[31], 0xff);
    assert_eq!(value(code.lower()), 0.0);
    assert_eq!(value(code.step()), 1.0);
    assert_eq!(value(code.code_sum()), 487.0);
    assert_eq!(value(code.norm2()), 5009.0);
    assert_eq!(values(&q.restore_rotated(&code)), x);
    assert_eq!(values(&q.decode(&code)), x);
}

#[test]
fn eight_bit_codes_are_in_order() {
    let q = plain(Bits::Eight, Metric::Dot);
    let x: Vec<f32> = (0..64).map(|i| (i * 4 + if i == 63 { 3 } else { 0 }) as f32).collect();
    let code = q.encode(&numbers(&x));
    let want: Vec<u8> = x.iter().map(|&v| v as u8).collect();
    assert_eq!(value(code.step()), 1.0);
    assert_eq!(code.codes(), &want[..]);
    assert_eq!(values(&q.restore_rotated(&code)), x);
}

#[test]
fn codes_round_to_the_nearest_step() {
    let q = plain(Bits::Eight, Metric::Dot);
    let mut x = vec![0.0f32; 64];
    x[0] = 255.0;
    x[1] = 10.4;
    x[2] = 10.5;
    x[3] = 10.6;
    x[4] = 254.75;
    let code = q.encode(&numbers(&x));
    assert_eq!(&code.codes()[..6], &[255, 10, 11, 11, 255, 0]);
}

#[test]
fn estimates_of_exact_codes_are_exact() {
    let x = numbers(&staircase());
    let bits = Bits::Four;
    let c = plain(bits, Metric::Dot).encode(&x);
    assert_eq!(value(plain(bits, Metric::Dot).dot_estimate(&c, &c)), 4960.0);
    assert_eq!(value(plain(bits, Metric::Cosine).distance(&c, &c).unwrap()), -4959.0);
    assert_eq!(value(plain(bits, Metric::Dot).distance(&c, &c).unwrap()), -4960.0);
    assert_eq!(value(plain(bits, Metric::L2).distance(&c, &c).unwrap()), 0.0);
}

#[test]
fn the_offset_enters_the_estimate() {
    let q = plain(Bits::Four, Metric::L2);
    let x: Vec<f32> = staircase().iter().map(|v| v - 3.0).collect();
    let y: Vec<f32> = staircase().iter().map(|v| 15.0 - v).collect();
    let (cx, cy) = (q.encode(&numbers(&x)), q.encode(&numbers(&y)));
    assert_eq!(value(cx.lower()), -3.0);
    let dot: f32 = x.iter().zip(&y).map(|(a, b)| a * b).sum();
    let l2: f32 = x.iter().zip(&y).map(|(a, b)| (a - b) * (a - b)).sum();
    assert_eq!(value(q.dot_estimate(&cx, &cy)), dot);
    assert_eq!(value(q.distance(&cx, &cy).unwrap()), l2);
}

#[test]
fn widths_can_be_mixed() {
    let q = plain(Bits::Four, Metric::Dot);
    let x = numbers(&staircase());
    let four = q.encode(&x);
    let eight = plain(Bits::Eight, Metric::Dot).encode(&x);
    let a = q.distance(&four, &eight).unwrap();
    let b = q.distance(&eight, &four).unwrap();
    assert!((value(a) + 4960.0).abs() < 0.01);
    assert!((value(b) + 4960.0).abs() < 0.01);
    // The distancer encodes the query at 8 bits.
    let d = q.query_distancer(&x);
    assert_eq!(d.query_code(), &eight);
    assert_eq!(d.distance(&four).unwrap(), b);
}

#[test]
fn vectors_without_spread_have_the_zero_code() {
    for bits in [Bits::Four, Bits::Eight] {
        let q = plain(bits, Metric::Dot);
        let zero = RqCode::zero(64, bits);
        assert_eq!(q.encode(&[]), zero);
        assert_eq!(q.encode(&numbers(&[2.5f32; 64])), zero);
        assert_eq!(q.encode(&numbers(&[-2.5f32; 100])), zero);
        assert_eq!(q.encode(&numbers(&[-0.0f32; 64])), zero);
        assert_eq!(q.encode(&numbers(&[f32::NAN; 64])), zero);
        assert_eq!(q.encode_to_bytes(&numbers(&[2.5f32; 64])), vec![0u8; q.code_size()]);
        assert!(values(&q.decode(&zero)).iter().all(|&v| v == 0.0));
    }
}

#[test]
fn zero_vectors_of_any_length_have_the_zero_code() {
    for bits in [Bits::Four, Bits::Eight] {
        let q = RotationalQuantizer::new(100, bits, Metric::L2);
        let zero = RqCode::zero(128, bits);
        for n in [1usize, 64, 100, 128, 500] {
            assert_eq!(q.encode(&numbers(&vec![0.0f32; n])), zero);
        }
    }
}

#[test]
fn infinite_coordinates_leave_empty_codes() {
    let q = plain(Bits::Eight, Metric::Dot);
    let code = q.encode(&numbers(&[f32::INFINITY, 1.0]));
    assert_eq!(code.codes(), &[0u8; 64]);
    assert_eq!(value(code.step()), f32::INFINITY);
    assert_eq!(value(code.norm2()), f32::INFINITY);
}

#[test]
fn nan_coordinates_are_skipped_in_the_range() {
    let q = plain(Bits::Eight, Metric::Dot);
    let mut x = vec![1.0f32; 64];
    x[0] = 256.0;
    x[1] = f32::NAN;
    let code = q.encode(&numbers(&x));
    assert_eq!(value(code.lower()), 1.0);
    assert_eq!(value(code.step()), 1.0);
    assert_eq!(&code.codes()[..3], &[255, 0, 0]);
    assert!(value(code.norm2()).is_nan());
}

#[test]
fn the_smallest_steps_are_capped_at_the_largest_code() {
    // A spread of 22 units over 15 rounds down to a step of one unit.
    let q = plain(Bits::Four, Metric::Dot);
    let mut x = vec![0.0f32; 64];
    x[1] = f32::from_bits(22);
    let code = q.encode(&numbers(&x));
    assert_eq!(code.step().to_bits(), 1);
    assert_eq!(code.codes()[1], 15);
    assert_eq!(code.codes()[0], 0);
    assert_eq!(code.code_sum().to_bits(), 15);
    assert_eq!(q.restore_rotated(&code)[1].to_bits(), 15);
}

#[test]
fn only_the_first_coordinates_count() {
    let q = RotationalQuantizer::with_seed(70, Bits::Four, Metric::Dot, 12);
    let x = numbers(&(0..300).map(|i| (i as f32 * 0.7).cos()).collect::<Vec<f32>>());
    assert_eq!(q.output_dim(), 128);
    assert_eq!(q.encode(&x), q.encode(&x[..128]));
    assert_ne!(q.encode(&x), q.encode(&x[..127]));
}

#[test]
fn written_codes_are_read_back() {
    for bits in [Bits::Four, Bits::Eight] {
        let q = RotationalQuantizer::new(90, bits, Metric::Cosine);
        let x = numbers(&(0..90).map(|i| (i as f32).sin()).collect::<Vec<f32>>());
        let bytes = q.encode_to_bytes(&x);
        assert_eq!(bytes.len(), q.code_size());
        assert_eq!(q.code_from_bytes(&bytes).unwrap(), q.encode(&x));
        assert_eq!(
            values(&q.decode_bytes(&bytes).unwrap()),
            values(&q.decode(&q.encode(&x)))
        );
        // Any other size is answered with the dimension it would have.
        let mut longer = bytes.clone();
        longer.push(0);
        let actual = bits.dims(longer.len() - RQ_METADATA_SIZE);
        let want = Error::DimensionMismatch {
            expected: 128,
            actual,
        };
        assert_eq!(q.code_from_bytes(&longer).unwrap_err(), want);
        assert_eq!(q.decode_bytes(&longer).unwrap_err(), want);
        // Input too short for the metadata has no dimensions at all.
        for short in [&bytes[..10], &bytes[..0], &bytes[..15]] {
            let want = Error::DimensionMismatch {
                expected: 128,
                actual: 0,
            };
            assert_eq!(q.code_from_bytes(short).unwrap_err(), want);
            assert_eq!(q.decode_bytes(short).unwrap_err(), want);
            let d = q.query_distancer(&x);
            assert_eq!(d.distance_bytes(short).unwrap_err(), want);
        }
        assert_eq!(
            RqCode::from_bytes(&bytes[..10], bits).unwrap_err(),
            Error::DimensionMismatch {
                expected: 16,
                actual: 10
            }
        );
    }
}

#[test]
fn the_first_code_of_another_dimension_is_reported() {
    let q = plain(Bits::Eight, Metric::Dot);
    let right = RqCode::zero(64, Bits::Eight);
    let (a, b) = (RqCode::zero(128, Bits::Eight), RqCode::zero(192, Bits::Four));
    let mismatch = |actual: usize| Error::DimensionMismatch {
        expected: 64,
        actual,
    };
    assert_eq!(q.distance(&a, &b).unwrap_err(), mismatch(128));
    assert_eq!(q.distance(&b, &a).unwrap_err(), mismatch(192));
    assert_eq!(q.distance(&right, &b).unwrap_err(), mismatch(192));
    assert_eq!(q.distance(&a, &right).unwrap_err(), mismatch(128));
    let d = q.query_distancer(&numbers(&staircase()));
    assert_eq!(d.distance(&a).unwrap_err(), mismatch(128));
    assert_eq!(d.distance_bytes(&a.to_bytes()).unwrap_err(), mismatch(128));
    // A 4-bit code read at 8 bits has half the dimensions.
    assert_eq!(d.distance_bytes(&b.to_bytes()).unwrap_err(), mismatch(96));
}

#[test]
fn batches_stop_at_the_first_error() {
    let q = plain(Bits::Eight, Metric::Dot);
    let d = q.query_distancer(&numbers(&staircase()));
    let good = q.encode_to_bytes(&numbers(&staircase()));
    let wrong = RqCode::zero(128, Bits::Eight).to_bytes();
    let short = vec![0u8; 3];
    assert_eq!(d.distances_bytes(&[]).unwrap().len(), 0);
    let two = d.distances_bytes(&[&good, &good]).unwrap();
    assert_eq!(two.len(), 2);
    assert_eq!(two[0], d.distance_bytes(&good).unwrap());
    assert_eq!(
        d.distances_bytes(&[&good, &wrong, &short]).unwrap_err(),
        Error::DimensionMismatch {
            expected: 64,
            actual: 128
        }
    );
    assert_eq!(
        d.distances_bytes(&[&good, &short, &wrong]).unwrap_err(),
        Error::DimensionMismatch {
            expected: 64,
            actual: 0
        }
    );
}

#[test]
fn eight_bit_queries_are_ordinary_codes() {
    let q = RotationalQuantizer::with_seed(200, Bits::Eight, Metric::L2, 4);
    let x = numbers(&(0..200).map(|i| (i as f32 * 0.3).sin()).collect::<Vec<f32>>());
    let y = numbers(&(0..200).map(|i| (i as f32 * 0.3).cos()).collect::<Vec<f32>>());
    let d = q.query_distancer(&x);
    assert_eq!(d.query_code(), &q.encode(&x));
    let c = q.encode(&y);
    assert_eq!(d.distance(&c).unwrap(), q.distance(&q.encode(&x), &c).unwrap());
    assert_eq!(d.distance_bytes(&c.to_bytes()).unwrap(), d.distance(&c).unwrap());
}

#[test]
fn getters_return_the_configuration() {
    let q = RotationalQuantizer::with_seed(70, Bits::Four, Metric::L2, 9);
    assert_eq!(q.input_dim(), 70);
    assert_eq!(q.output_dim(), 128);
    assert_eq!(q.bits(), Bits::Four);
    assert_eq!(q.metric(), Metric::L2);
    assert_eq!(q.rotation(), &FastRotation::new(70, 3, 9));
    assert_eq!(q.code_size(), 16 + 64);
    let rotation = q.rotation().clone();
    let again = RotationalQuantizer::from_rotation(70, Bits::Four, Metric::L2, rotation);
    assert_eq!(q, again);
    assert_eq!(
        RotationalQuantizer::new(70, Bits::Four, Metric::L2),
        RotationalQuantizer::with_seed(
            70,
            Bits::Four,
            Metric::L2,
            fastrq::DEFAULT_FAST_ROTATION_SEED
        )
    );
}

#[test]
fn ordinary_vectors_are_accepted() {
    let q = RotationalQuantizer::new(70, Bits::Four, Metric::Dot);
    let x = numbers(&staircase());
    assert!(q.accepts(&x, Bits::Four));
    assert!(q.accepts(&[], Bits::Eight));
    let d = q.query_distancer(&x);
    let c = q.encode(&x);
    assert!(d.accepts(&c));
    assert!(d.accepts_bytes(&c.to_bytes()));
    assert!(d.accepts_bytes(&[]));
    let malformed = RotationalQuantizer::from_rotation(
        70,
        Bits::Four,
        Metric::Dot,
        FastRotation::restore(128, 1, vec![], vec![]),
    );
    assert!(!malformed.accepts(&x, Bits::Four));
    // Nothing is rotated where the input is empty or the bytes are no code.
    assert!(malformed.accepts(&[], Bits::Four));
    assert_eq!(malformed.encode(&[]), RqCode::zero(128, Bits::Four));
    assert_eq!(malformed.encode_to_bytes(&[]), vec![0u8; 16 + 64]);
    assert!(malformed.decode_bytes(&[0u8; 20]).is_err());
    assert_eq!(malformed.query_distancer(&[]).query_code().dimension(), 128);
}

#[test]
fn codes_stay_within_half_a_step() {
    for bits in [Bits::Four, Bits::Eight] {
        let q = RotationalQuantizer::with_seed(500, bits, Metric::Dot, 31);
        let x = numbers(&(0..500).map(|i| (i as f32 * 1.3).sin() * 40.0).collect::<Vec<f32>>());
        let code = q.encode(&x);
        let target = values(&q.rotation().rotate(&x));
        let restored = values(&q.restore_rotated(&code));
        let step = value(code.step()) as f64;
        let top = if bits == Bits::Four { 15.0 } else { 255.0 };
        let bound = step * (0.5 + (6.0 * top + 1.0) / 16_777_216.0)
            + (value(code.lower()).abs() as f64) / 16_777_216.0;
        for (t, r) in target.iter().zip(&restored) {
            assert!((*t as f64 - *r as f64).abs() <= bound);
        }
    }
}

#[test]
fn decoding_is_off_by_what_quantization_took() {
    for bits in [Bits::Four, Bits::Eight] {
        let q = RotationalQuantizer::with_seed(300, bits, Metric::L2, 8);
        let x: Vec<f32> = (0..300).map(|i| (i as f32 * 0.9).sin()).collect();
        let code = q.encode(&numbers(&x));
        let decoded = values(&q.decode(&code));
        assert_eq!(decoded.len(), 320);
        let off: f64 = decoded
            .iter()
            .enumerate()
            .map(|(i, &v)| (v as f64 - x.get(i).copied().unwrap_or(0.0) as f64).powi(2))
            .sum();
        let step = value(code.step()) as f64;
        assert!(4.0 * off <= 320.0 * step * step * 1.001);
    }
}

#[test]
fn estimates_are_off_by_what_half_steps_can_move() {
    let x: Vec<f32> = (0..200).map(|i| (i as f32 * 0.37).sin()).collect();
    let y: Vec<f32> = (0..200).map(|i| (i as f32 * 0.21).cos()).collect();
    let dot: f64 = x.iter().zip(&y).map(|(&a, &b)| a as f64 * b as f64).sum();
    for (bx, by) in [
        (Bits::Eight, Bits::Eight),
        (Bits::Eight, Bits::Four),
        (Bits::Four, Bits::Four),
    ] {
        let qx = RotationalQuantizer::with_seed(200, bx, Metric::Dot, 6);
        let qy = RotationalQuantizer::with_seed(200, by, Metric::Dot, 6);
        let (cx, cy) = (qx.encode(&numbers(&x)), qy.encode(&numbers(&y)));
        let rx = values(&qx.rotation().rotate(&numbers(&x)));
        let ry = values(&qy.rotation().rotate(&numbers(&y)));
        let (sx, sy) = (value(cx.step()) as f64, value(cy.step()) as f64);
        let bound: f64 = rx
            .iter()
            .zip(&ry)
            .map(|(&a, &b)| {
                (a.abs() as f64 * sy + b.abs() as f64 * sx) / 2.0 + sx * sy / 4.0
            })
            .sum();
        let estimate = value(qx.dot_estimate(&cx, &cy)) as f64;
        assert!((estimate - dot).abs() <= bound + 1e-3);
    }
}
