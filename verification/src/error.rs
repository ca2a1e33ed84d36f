//! Errors reported by the voice activity detector.

use vstd::prelude::*;

verus! {

/// An enum of all errors returned by the voice activity detector functions.
#[derive(Clone, Copy, Debug, PartialEq, Eq, Structural)]
pub enum Error {
    /// The configuration must use a larger chunk size or a smaller sample
    /// rate: each chunk has to cover enough audio for one prediction.
    VadConfigError {
        /// The sample rate for the VAD.
        sample_rate: i64,
        /// The chunk size for the VAD.
        chunk_size: usize,
    },
}

} // verus!
