//! # fastrq: 8-bit and 4-bit rotational quantization
//!
//! **Rotational quantization (RQ)** compresses high-dimensional vectors to
//! about one byte (or half a byte) per dimension while preserving enough
//! information to estimate cosine, dot and L2 distances accurately.
//!
//! 1. A seeded, orthogonal [`FastRotation`] (random signs, swaps and a
//!    Walsh-Hadamard transform, three rounds) spreads the vector's energy over
//!    all coordinates.
//! 2. A single global scalar quantizer maps each rotated coordinate to a code
//!    using a per-vector offset and step.
//! 3. Because the rotation is orthogonal it preserves inner products, so the
//!    original distance can be estimated from the codes plus a little metadata.
//!
//! No training or codebook is required: encoding a vector is independent of any
//! other vector.
//!
//! ## What is proved
//!
//! Numbers are [`Binary32`] values: IEEE 754 single precision, computed on their
//! bit patterns. Each operation is proved to be the exact result, rounded to
//! nearest with ties to even, so every code, byte and distance that this crate
//! computes is fixed bit for bit by its contract.
//!
//! Each algorithm is specified once, for any [`Arithmetic`]. Contracts use the
//! specification over `Binary32`. Over the real numbers, [`exact`] and
//! [`recovery`] prove what the algorithms compute without rounding: the
//! rotation is orthogonal and undone by un-rotation, and the estimate is the
//! inner product of the vectors that two codes stand for. [`precision`],
//! [`rounded`], [`fidelity`], [`drift`], [`accuracy`] and [`distances`] prove
//! what rounding leaves of that, [`scaling`] and [`zeros`] what powers of two and
//! zeros do, and [`laws`] how reading, writing and comparing codes fit together.
//!
//! What the operations are for is stated in terms of their inputs and results
//! alone: [`outcomes`] of encoding, decoding and distances, by the entries of
//! vectors and the bytes of codes; [`turning`] of the rounds of a rotation;
//! [`seeding`] of the draws that a rotation is made of; and [`ieee`] of the
//! operations on numbers.

pub mod accuracy;
pub mod algebra;
pub mod arith;
pub mod binary32;
pub mod code;
pub mod distances;
pub mod drift;
pub mod encoding;
pub mod error;
pub mod estimate;
pub mod exact;
pub mod fidelity;
pub mod hadamard;
pub mod ieee;
pub mod kernels;
pub mod laws;
pub mod norms;
pub mod outcomes;
pub mod pairing;
pub mod precision;
pub mod quantizer;
pub mod recovery;
pub mod rng;
pub mod rotation;
pub mod rounded;
pub mod rounding;
pub mod scaling;
pub mod seeding;
pub mod turning;
pub mod zeros;

pub use arith::Arithmetic;
pub use binary32::Binary32;
pub use code::{Bits, RqCode, RqCodeRef, RQ_METADATA_SIZE};
pub use error::{Error, Result};
pub use estimate::Metric;
pub use pairing::Swap;
pub use quantizer::{QueryDistancer, RotationalQuantizer};
pub use rotation::{FastRotation, DEFAULT_FAST_ROTATION_SEED};
