//! Generator, pairing, transform, kernels and errors on concrete values.

use fastrq::code::{Bits, RqCode, RqCodeRef};
use fastrq::hadamard::{block64_fwht256, block_fwht, fwht16, fwht256, fwht64};
use fastrq::kernels::{dot_u4, dot_u8, dot_u8_u4, inner_fits_u32, SAFE_CODE_BYTES};
use fastrq::pairing::{random_signs, random_swaps};
use fastrq::rng::SplitMix64;
use fastrq::rotation::padded_dim;
use fastrq::{Binary32, Error, FastRotation, Metric, Swap};

fn numbers(x: &[f32]) -> Vec<Binary32> {
    x.iter().map(|v| Binary32::from_bits(v.to_bits())).collect()
}

fn value(x: Binary32) -> f32 {
    f32::from_bits(x.to_bits())
}

fn values(x: &[Binary32]) -> Vec<f32> {
    x.iter().map(|&v| value(v)).collect()
}

#[test]
fn splitmix_produces_its_known_sequence() {
    let mut rng = SplitMix64::new(0);
    assert_eq!(rng.next_u64(), 0xe220_a839_7b1d_cdaf);
    assert_eq!(rng.next_u64(), 0x6e78_9e6a_a1b9_65f4);
    assert_eq!(rng.next_u64(), 0x06c4_5d18_8009_454f);
}

#[test]
fn fractions_are_the_top_bits() {
    let (mut a, mut b) = (SplitMix64::new(99), SplitMix64::new(99));
    for _ in 0..1000 {
        assert_eq!(a.next_fraction(), b.next_u64() >> 11);
    }
}

#[test]
fn draws_below_agree_with_double_precision() {
    let (mut a, mut b) = (SplitMix64::new(5), SplitMix64::new(5));
    for n in (1..3000usize).chain([65_536, 1 << 20, (1 << 31) - 1, 4_294_967_295]) {
        for _ in 0..5 {
            let fraction = (b.next_u64() >> 11) as f64 * (1.0 / (1u64 << 53) as f64);
            let want = (fraction * n as f64) as usize;
            let got = a.next_below(n);
            assert_eq!(got, want, "n = {n}");
            assert!(got < n);
        }
    }
}

#[test]
fn signs_follow_the_draws() {
    let (mut a, mut b) = (SplitMix64::new(8), SplitMix64::new(8));
    let signs = values(&random_signs(500, &mut a));
    for s in signs {
        let fraction = (b.next_u64() >> 11) as f64 * (1.0 / (1u64 << 53) as f64);
        assert_eq!(s, if fraction < 0.5 { -1.0 } else { 1.0 });
    }
}

#[test]
fn swaps_pair_every_index_once_in_order() {
    for n in [2usize, 64, 128, 1024] {
        let mut rng = SplitMix64::new(n as u64);
        let swaps = random_swaps(n, &mut rng);
        assert_eq!(swaps.len(), n / 2);
        let mut seen = vec![false; n];
        let mut last: Option<u32> = None;
        for s in &swaps {
            assert!(s.i < s.j);
            assert!(last.map_or(true, |l| l < s.i));
            last = Some(s.i);
            for k in [s.i, s.j] {
                assert!(!seen[k as usize]);
                seen[k as usize] = true;
            }
        }
        assert!(seen.iter().all(|&x| x));
    }
}

#[test]
fn swaps_are_the_sorted_pairs_of_a_shuffle() {
    let n = 64usize;
    let (mut a, mut b) = (SplitMix64::new(3), SplitMix64::new(3));
    let mut p: Vec<u32> = (0..n as u32).collect();
    for i in (1..n).rev() {
        let j = b.next_below(i + 1);
        p.swap(i, j);
    }
    let mut want: Vec<Swap> = (0..n / 2)
        .map(|s| Swap {
            i: p[2 * s].min(p[2 * s + 1]),
            j: p[2 * s].max(p[2 * s + 1]),
        })
        .collect();
    want.sort_by_key(|s| s.i);
    assert_eq!(random_swaps(n, &mut a), want);
}

#[test]
fn dimensions_are_padded_to_multiples_of_64() {
    for (n, want) in [
        (0usize, 64usize),
        (1, 64),
        (63, 64),
        (64, 64),
        (65, 128),
        (128, 128),
        (1000, 1024),
        (65_500, 65_536),
    ] {
        assert_eq!(padded_dim(n), want);
    }
}

/// The transform by its definition: the sign of entry `(i, j)` is the parity of
/// the common bits of `i` and `j`.
fn by_definition(x: &[f32], factor: f64) -> Vec<f64> {
    (0..x.len())
        .map(|i| {
            (0..x.len())
                .map(|j| {
                    let sign = if (i & j).count_ones() % 2 == 0 { 1.0 } else { -1.0 };
                    sign * x[j] as f64 * factor
                })
                .sum()
        })
        .collect()
}

fn close(got: &[Binary32], want: &[f64]) {
    for (g, w) in got.iter().zip(want) {
        assert!((value(*g) as f64 - w).abs() < 1e-4, "{} vs {w}", value(*g));
    }
}

#[test]
fn transforms_follow_the_definition() {
    let x: Vec<f32> = (0..256).map(|i| ((i * 37 % 101) as f32 - 50.0) / 50.0).collect();

    let mut y = numbers(&x[..16]);
    fwht16(&mut y, numbers(&[0.25])[0]);
    close(&y, &by_definition(&x[..16], 0.25));

    let mut y = numbers(&x[..64]);
    fwht64(&mut y);
    close(&y, &by_definition(&x[..64], 0.125));

    let mut y = numbers(&x[..64]);
    block64_fwht256(&mut y);
    close(&y, &by_definition(&x[..64], 0.0625));

    let mut y = numbers(&x);
    fwht256(&mut y);
    close(&y, &by_definition(&x, 0.0625));
}

#[test]
fn transforms_leave_what_is_behind_their_block() {
    let x = numbers(&(0..300).map(|i| (i % 11) as f32 - 4.0).collect::<Vec<f32>>());
    let (mut a, mut b, mut c, mut d) = (x.clone(), x.clone(), x.clone(), x.clone());
    fwht16(&mut a, numbers(&[0.25])[0]);
    fwht64(&mut b);
    block64_fwht256(&mut c);
    fwht256(&mut d);
    assert_eq!(&a[16..], &x[16..]);
    assert_eq!(&b[64..], &x[64..]);
    assert_eq!(&c[64..], &x[64..]);
    assert_eq!(&d[256..], &x[256..]);
    let mut block = x[..64].to_vec();
    fwht64(&mut block);
    assert_eq!(&b[..64], &block[..]);
    let mut block = x[..256].to_vec();
    fwht256(&mut block);
    assert_eq!(&d[..256], &block[..]);
}

#[test]
fn a_unit_vector_is_spread_evenly() {
    let mut x = vec![0.0f32; 64];
    x[0] = 1.0;
    let mut y = numbers(&x);
    fwht64(&mut y);
    assert_eq!(values(&y), vec![0.125f32; 64]);
    fwht64(&mut y);
    assert_eq!(values(&y), x);
}

#[test]
fn blocks_of_256_come_before_blocks_of_64() {
    let x: Vec<f32> = (0..384).map(|i| (i % 13) as f32).collect();
    let mut whole = numbers(&x);
    block_fwht(&mut whole);
    let mut parts = numbers(&x);
    fwht256(&mut parts[..256]);
    fwht64(&mut parts[256..320]);
    fwht64(&mut parts[320..384]);
    assert_eq!(values(&whole), values(&parts));
    // Small integers are transformed exactly, so the transform undoes itself.
    block_fwht(&mut whole);
    assert_eq!(values(&whole), x);
}

#[test]
fn the_seed_determines_the_rotation() {
    let a = FastRotation::new(300, 3, 77);
    assert_eq!(a, FastRotation::new(300, 3, 77));
    assert!(a != FastRotation::new(300, 3, 78));
    assert_eq!(a.output_dim(), 320);
    assert_eq!(a.rounds(), 3);
    assert_eq!(a.swaps().len(), 3);
    assert!(a.signs().iter().all(|round| round.len() == 320));
    assert!(a
        .signs()
        .iter()
        .flatten()
        .all(|&s| value(s) == 1.0 || value(s) == -1.0));
}

#[test]
fn restored_rotations_rotate_alike() {
    let a = FastRotation::new(100, 3, 1);
    let b = FastRotation::restore(
        a.output_dim(),
        a.rounds(),
        a.swaps().to_vec(),
        a.signs().to_vec(),
    );
    assert_eq!(a, b);
    let x = numbers(&(0..100).map(|i| (i as f32).sin()).collect::<Vec<f32>>());
    assert_eq!(values(&a.rotate(&x)), values(&b.rotate(&x)));
}

#[test]
fn no_rounds_only_pad_and_cut() {
    let r = FastRotation::restore(64, 0, vec![], vec![]);
    let long: Vec<f32> = (1..=70).map(|i| i as f32).collect();
    let mut short = vec![0.0f32; 64];
    short[..2].copy_from_slice(&[1.0, 2.0]);
    assert_eq!(values(&r.rotate(&numbers(&[1.0, 2.0]))), short);
    assert_eq!(values(&r.rotate(&numbers(&long))), &long[..64]);
    assert_eq!(values(&r.unrotate(&numbers(&[5.0, 6.0]))), vec![5.0, 6.0]);
}

#[test]
fn one_swap_round_is_undone_exactly() {
    let swaps: Vec<Swap> = (0..32).map(|i| Swap { i, j: i + 32 }).collect();
    let signs: Vec<f32> = (0..64).map(|i| if i % 3 == 0 { -1.0 } else { 1.0 }).collect();
    let r = FastRotation::restore(64, 1, vec![swaps], vec![numbers(&signs)]);
    assert!(r.applies(64));
    // Integers survive the transform without rounding.
    let x: Vec<f32> = (0..64).map(|i| (i as f32 - 30.0) * 8.0).collect();
    let rx = r.rotate(&numbers(&x));
    assert_eq!(values(&r.unrotate(&rx)), x);
}

#[test]
fn malformed_rotations_do_not_apply() {
    let good = FastRotation::new(64, 2, 5);
    assert!(good.applies(64));
    assert!(!good.applies(128 - 1));
    assert!(!good.applies(0));
    let missing = FastRotation::restore(64, 3, good.swaps().to_vec(), good.signs().to_vec());
    assert!(!missing.applies(64));
    let far = FastRotation::restore(
        64,
        1,
        vec![vec![Swap { i: 0, j: 64 }]],
        vec![good.signs()[0].clone()],
    );
    assert!(!far.applies(64));
    let unsigned = FastRotation::restore(64, 1, vec![vec![Swap { i: 0, j: 1 }]], vec![vec![]]);
    assert!(!unsigned.applies(64));
}

#[test]
fn kernels_on_small_codes() {
    assert_eq!(dot_u8(&[1, 2, 3], &[4, 5, 6]), 32);
    assert_eq!(dot_u8(&[1, 2, 3], &[4, 5]), 14);
    assert_eq!(dot_u8(&[], &[4, 5]), 0);
    // 0x21 holds 1 and 2, 0x43 holds 3 and 4.
    assert_eq!(dot_u4(&[0x21], &[0x43]), 11);
    assert_eq!(dot_u4(&[0x21, 0xff], &[0x43]), 11);
    // Bytes 0 and 1 pair with the low nibbles, bytes 2 and 3 with the high ones.
    assert_eq!(dot_u8_u4(&[10, 20, 30, 40], &[0x21, 0x43]), 10 + 60 + 60 + 160);
    assert_eq!(dot_u8_u4(&[10, 20, 30], &[0x21, 0x43]), 10 + 40);
}

#[test]
fn kernels_on_the_largest_codes() {
    let x = vec![255u8; 2048];
    assert_eq!(dot_u8(&x, &x), 2048 * 65_025);
    assert_eq!(dot_u4(&x, &x), 2048 * 450);
    assert_eq!(dot_u8_u4(&vec![255u8; 4096], &x), 2048 * 2 * 255 * 15);
}

#[test]
fn kernels_agree_with_plain_dot_products() {
    let n = 320usize;
    let a: Vec<u8> = (0..n).map(|i| (i * 7 % 16) as u8).collect();
    let b: Vec<u8> = (0..n).map(|i| (i * i % 16) as u8).collect();
    let q: Vec<u8> = (0..n).map(|i| (i * 31 % 256) as u8).collect();
    let pack = |d: &[u8]| -> Vec<u8> {
        (0..n / 2).map(|i| d[i] | (d[i + n / 2] << 4)).collect()
    };
    let plain = |x: &[u8], y: &[u8]| -> u32 {
        x.iter().zip(y).map(|(&a, &b)| a as u32 * b as u32).sum()
    };
    assert_eq!(dot_u4(&pack(&a), &pack(&b)), plain(&a, &b));
    assert_eq!(dot_u8_u4(&q, &pack(&a)), plain(&q, &a));
    assert_eq!(dot_u8(&q, &a), plain(&q, &a));
}

#[test]
fn overflowing_dot_products_are_told_apart() {
    let fits = vec![255u8; SAFE_CODE_BYTES];
    let over = vec![255u8; SAFE_CODE_BYTES + 1];
    assert!(inner_fits_u32(Bits::Eight, &fits, Bits::Eight, &fits));
    assert!(inner_fits_u32(Bits::Eight, &fits, Bits::Eight, &over));
    assert!(!inner_fits_u32(Bits::Eight, &over, Bits::Eight, &over));
    assert!(inner_fits_u32(Bits::Four, &over, Bits::Four, &over));
    assert!(inner_fits_u32(Bits::Eight, &over, Bits::Four, &over));
    assert!(inner_fits_u32(Bits::Four, &over, Bits::Eight, &over));
    assert_eq!(dot_u8(&fits, &fits), 4_294_966_275);
}

#[test]
fn widths_bytes_and_dimensions() {
    assert_eq!(Bits::Four.as_u32(), 4);
    assert_eq!(Bits::Eight.as_u32(), 8);
    assert_eq!(value(Bits::Four.max_code()), 15.0);
    assert_eq!(value(Bits::Eight.max_code()), 255.0);
    for dim in [0usize, 64, 128, 1024] {
        for bits in [Bits::Four, Bits::Eight] {
            assert_eq!(bits.dims(bits.code_bytes(dim)), dim);
            assert!(bits.holds(bits.code_bytes(dim), dim));
            assert!(!bits.holds(bits.code_bytes(dim) + 1, dim));
        }
    }
    assert_eq!(Bits::Four.dims(usize::MAX), usize::MAX);
}

#[test]
fn metrics_have_their_indicators() {
    let pairs: Vec<(f32, f32)> = [Metric::Cosine, Metric::Dot, Metric::L2]
        .iter()
        .map(|m| {
            let (cos, l2) = m.indicators();
            (value(cos), value(l2))
        })
        .collect();
    assert_eq!(pairs, vec![(1.0, 0.0), (0.0, 0.0), (0.0, 1.0)]);
}

#[test]
fn flat_codes_are_little_endian() {
    let code = RqCode::from_parts(
        Binary32::from_bits(0x0403_0201),
        Binary32::from_bits(0x0807_0605),
        Binary32::from_bits(0x0c0b_0a09),
        Binary32::from_bits(0x100f_0e0d),
        Bits::Four,
        vec![17, 18],
    );
    let bytes = code.to_bytes();
    assert_eq!(bytes, (1..=18).collect::<Vec<u8>>());
    let view = RqCodeRef::from_bytes(&bytes, Bits::Four).unwrap();
    assert_eq!(view.lower().to_bits(), 0x0403_0201);
    assert_eq!(view.step().to_bits(), 0x0807_0605);
    assert_eq!(view.code_sum().to_bits(), 0x0c0b_0a09);
    assert_eq!(view.norm2().to_bits(), 0x100f_0e0d);
    assert_eq!(view.codes(), &[17, 18]);
    assert_eq!(view.dimension(), 4);
    assert_eq!(view.bits(), Bits::Four);
    assert_eq!(RqCode::from_bytes(&bytes, Bits::Four).unwrap(), code);
    assert_eq!(code.as_view().codes(), code.codes());
    // The width is not recorded: the same bytes hold half as many 8-bit codes.
    assert_eq!(RqCode::from_bytes(&bytes, Bits::Eight).unwrap().dimension(), 2);
}

#[test]
fn short_bytes_are_no_code() {
    for n in 0..16usize {
        let want = Error::DimensionMismatch {
            expected: 16,
            actual: n,
        };
        assert_eq!(RqCode::from_bytes(&vec![0; n], Bits::Eight).unwrap_err(), want);
        assert_eq!(RqCodeRef::from_bytes(&vec![0; n], Bits::Four).unwrap_err(), want);
    }
    assert_eq!(RqCode::from_bytes(&[0; 16], Bits::Eight).unwrap().dimension(), 0);
}

#[test]
fn errors_have_their_messages() {
    let e = Error::DimensionMismatch {
        expected: 64,
        actual: 1_234_567_890,
    };
    assert_eq!(
        e.message(),
        "code dimensions don't match: expected 64, got 1234567890"
    );
    assert_eq!(
        Error::UnsupportedBits(0).message(),
        "unsupported bit width: 0 (only 8-bit is implemented)"
    );
    assert_eq!(
        Error::DimensionMismatch {
            expected: usize::MAX,
            actual: 9
        }
        .message(),
        format!("code dimensions don't match: expected {}, got 9", usize::MAX)
    );
}
