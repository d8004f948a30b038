# fastrq

8-bit and 4-bit **rotational quantization (RQ)**, written and proved in Verus:
high-dimensional vectors are compressed to about one byte, or half a byte, per
dimension, and cosine, dot and L2 distances are estimated from the codes.

```rust
use fastrq::{Binary32, Bits, Metric, RotationalQuantizer};

let q = RotationalQuantizer::new(768, Bits::Eight, Metric::Cosine);
let code_a = q.encode(&vec_a);               // vec_a: Vec<Binary32>
let code_b = q.encode(&vec_b);
let dist = q.distance(&code_a, &code_b)?;    // from the codes alone

let distancer = q.query_distancer(&query);   // encode the query once
let flat = q.encode_to_bytes(&vec_a);        // 16 bytes of metadata, then codes
let d = distancer.distance_bytes(&flat)?;
```

## Numbers

The library computes in IEEE 754 single precision on bit patterns: a
`Binary32` is converted from and to an `f32` by its bits. Every operation is
proved to return the exact result rounded to nearest, ties to even, so all codes,
bytes and distances are fixed bit for bit by the contracts. Where the result of
an operation is NaN, it is the quiet NaN `0x7fc00000`.

## Layout

| module | holds |
| --- | --- |
| `arith` | the arithmetic that algorithms are specified over |
| `rounding`, `binary32` | rounding and the operations of single precision |
| `hadamard` | the fast Walsh-Hadamard transform, in blocks |
| `rng`, `pairing` | the generator, random signs and random pairings |
| `rotation` | `FastRotation` |
| `code` | `Bits`, `RqCode`, `RqCodeRef` and the flat byte layout |
| `encoding` | scalar quantization of a rotated vector |
| `kernels` | integer dot products of codes |
| `estimate` | `Metric`, inner product and distance estimates |
| `quantizer` | `RotationalQuantizer`, `QueryDistancer` |
| `error` | `Error` and its messages |

Laws that relate several functions are public proof functions whose names start
with `law_`:

| module | states |
| --- | --- |
| `laws` | reading back what was written, distances of codes and bytes, rotations from seeds |
| `exact` | without rounding: transforms as sums with signs, rotations are undone by rotating back and keep inner products |
| `recovery` | without rounding: codes keep coordinates up to half a step, and decoded vectors, estimates and distances follow from that |
| `precision` | rounding is nearest, monotone, exact on numbers of the format |
| `rounded` | as computed: bounds on codes, zero codes, steps that are undone bit for bit |
| `fidelity` | as computed: how far a coordinate is from its code |
| `drift` | as computed: how far a rotation, and a rotation undone, is from the exact one |
| `accuracy` | as computed, in plain numbers: norms, round trips, restored coordinates and decoded vectors |
| `distances` | as computed: how far estimates and distances are from those of the vectors |
| `scaling` | as computed: a power of two passes through rotations and codes unrounded |
| `zeros` | as computed: padding with zeros, and distances of the zero code |

Tools for these proofs stand in `algebra` and `norms`.

`app/` holds the front end for callers with `f32` vectors: conversions,
`std::error::Error`, and copies of the types that derive serde's traits.
