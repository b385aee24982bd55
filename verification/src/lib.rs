//! Frequency counting over streams of string keys: an exact counter and two
//! bounded-memory approximations, Lossy Counting and Sticky Sampling.
//!
//! Frequencies, thresholds and tolerances are fixed-point numbers counted in
//! billionths ([`Fraction`]); every counter keeps, as ghost state, the stream
//! it has observed, and its invariant relates the counts it holds to the true
//! number of occurrences in that stream.

pub mod counter;
pub mod fraction;
pub mod lossy;
pub mod lossy_memory;
pub mod naive;
pub mod random;
pub mod sticky;
pub mod stream;
pub mod table;

pub use counter::{ConfigError, Counter, Entry};
pub use fraction::{Fraction, SCALE};
pub use lossy::{new_lossy_counter, FDeltaPair, LossyCounter};
pub use naive::{new_naive_sampler, NaiveSampler};
pub use sticky::{new_sampler, StickySampler, Thinning};
