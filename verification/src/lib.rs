//! Verified kernels and helpers of a CPU tensor-benchmark harness.
//!
//! - [`float_key`]: how the argmax scan kernels see an IEEE-754 double
//!   (NaN, or an ordered key).
//! - [`scan_spec`] and [`scan`]: the 8-lane argmax scan variants and the
//!   NaN semantics that each of them has.
//! - [`layout`] and [`elementwise`]: 2-D strided layouts and the blocked
//!   elementwise kernels that walk them.
//! - [`fixture`], [`rusage`], [`timing`]: deterministic fixture data,
//!   resource-usage deltas and sample statistics of the timing loops.

pub mod float_key;
pub mod scan_spec;
pub mod scan;
pub mod layout;
pub mod elementwise;
pub mod fixture;
pub mod rusage;
pub mod timing;
