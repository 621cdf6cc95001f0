//! In-place radix-2 Cooley-Tukey transform over caller-supplied arithmetic.
//!
//! The index machinery (bit counting, bit reversal, the permutation, the
//! butterfly schedule) is proved here once and for all; the sample type and
//! its arithmetic are parameters, so the same verified engine serves complex
//! doubles, modular integers or any other field with roots of unity.
//!
//! [`fft`] states what it does as a relation between input and output that
//! any arithmetic admits ([`Arithmetic::transform`]). Where the arithmetic is
//! exact, that relation is the discrete Fourier transform, is additive, and
//! is undone by the inverse transform; those theorems are in [`dft`],
//! [`exact`] and [`inversion`]. Rounded arithmetic follows the same network
//! and comes as close to them as its rounding allows.

pub mod bits;
pub mod permute;
pub mod arith;
pub mod twiddle;
pub mod butterfly;
pub mod transform;
pub mod laws;
pub mod ring;
pub mod sums;
pub mod exact;
pub mod dft;
pub mod inversion;

pub use arith::Arithmetic;
pub use bits::{is_power_of_two, log2, rev_bits};
pub use permute::bit_reverse_permutation;
pub use transform::{fft, try_fft, LengthError};
