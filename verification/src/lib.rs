//! Fixed-point numeric support library.
//!
//! The heart of the crate is the radix-literal digit-position engine in
//! [`bytes`]: zero-copy views over the digit runs of a fixed-point literal,
//! and the normalization that shifts the radix point by an arbitrary signed
//! exponent without ever materializing runs of zeros.  Its mathematical
//! model — digit sequences, zero-run stripping, and the point-shift laws —
//! lives in [`digit_seq`].  [`log10`] provides branchless base-10 logarithm
//! primitives for unsigned integers, used to bound digit counts when a digit
//! sequence is accumulated into bits.  [`num`] and [`unwrapped`] hold the
//! fixed-point value type and its panicking-on-overflow arithmetic wrapper.

pub mod bytes;
pub mod digit_seq;
pub mod log10;
pub mod num;
pub mod unwrapped;
