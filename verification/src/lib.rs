//! Axis-oriented numeric-array operations with verified semantics.
//!
//! The library works on N-dimensional arrays whose elements are 64-bit words
//! (`u64`).  For the order-based operations a word is read as the IEEE-754
//! bit pattern of a double-precision value (`f64::to_bits`), and the
//! [`order`] module defines a total order over those bit patterns that a
//! caller cannot get from the partial order on floats themselves.  The
//! index-valued results of `argmaxf` and `argsortf` hold plain indices.
//!
//! Floating-point arithmetic (the elementwise exponential, sigmoid and the
//! softmax normalisation) cannot be carried out on bit patterns; a host
//! layer performs it and uses this crate for the shape bookkeeping, the
//! lane decomposition and the order-based reductions that back it.

pub mod array;
pub mod order;
pub mod reduce;
pub mod sorting;

pub use array::{Arr, OpError};
pub use reduce::{argmaxf, argmaxf_keep_dims, maxf, maxf_keep_dims};
pub use sorting::{argsortf, sortf};
