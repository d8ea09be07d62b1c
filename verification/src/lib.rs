//! Exact post-processing of randomized-measurement histograms.
//!
//! A histogram says how often each bitstring was measured. From it, or from
//! two of them, the library estimates the purity of a subsystem or the
//! overlap of two states: it selects the subsystem, reduces every histogram
//! to it, and weighs every pair of outcomes at its Hamming distance.
//!
//! Nothing is rounded. An estimate is the exact weight found at each
//! distance; turning it into a floating-point number, spreading a batch over
//! threads and taking the time are left to the caller.
//!
//! - [`construct`]: from a degree to a range of positions, and cyclic slices.
//! - [`selection`]: the part of a bitstring kept, by range or by registers.
//! - [`histogram`]: histograms and their reduction to a subsystem.
//! - [`randomized`]: the Hamming distance and the weight of pairs.
//! - [`entropy`] and [`echo`]: purity and overlap, singly and in batches.
//! - [`hadamard`]: the Hadamard test on one qubit.
//! - [`dummy`]: made-up bitstrings and counts.
//! - [`registers`], [`bits`], [`error`]: what the others stand on.

pub mod bits;
pub mod construct;
pub mod dummy;
pub mod echo;
pub mod entropy;
pub mod error;
pub mod hadamard;
pub mod histogram;
pub mod randomized;
pub mod registers;
pub mod selection;
