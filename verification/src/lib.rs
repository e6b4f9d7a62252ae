//! A second-order (biquad) IIR filter run in place over sample buffers, in the several loop
//! forms that a benchmark compares, with the driver that pushes one buffer through a bank of
//! filters round after round.
//!
//! The filter is generic in its sample type: the arithmetic of one filter step is handed in as a
//! closure, and what is proved is everything around it, namely which sample each step reads,
//! where its result goes and how the filter's memory of past inputs and outputs moves on.

pub mod biquad;
pub mod kernels;
pub mod bench;
