//! Validated configuration for a voice activity detector.
//!
//! The predictor itself (a neural model run by an inference engine) operates
//! on floating-point tensors and is driven outside of this crate; what is
//! validated and carried here is the configuration every stage shares: the
//! chunk size and the sample rate. The predictor needs at least 32ms of audio
//! per chunk, so `sample_rate / chunk_size` may not exceed 31.25; the check is
//! done on exact integers (31.25 == 125 / 4).

use vstd::prelude::*;

use crate::error::Error;

verus! {

/// True exactly when a chunk of `chunk_size` samples at `sample_rate` covers
/// at least 32ms of audio, i.e. `sample_rate / chunk_size <= 31.25`.
pub open spec fn config_valid(chunk_size: usize, sample_rate: i64) -> bool {
    4 * (sample_rate as int) <= 125 * (chunk_size as int)
}

/// A validated voice activity detector configuration.
#[derive(Clone, Copy, Debug, PartialEq, Eq, Structural)]
pub struct VoiceActivityDetector {
    /// The number of samples grouped into one prediction chunk.
    pub chunk_size: usize,
    /// The sample rate of the incoming audio.
    pub sample_rate: i64,
}

/// Collects the configuration values for a [`VoiceActivityDetector`] and
/// validates them on build.
#[derive(Clone, Copy, Debug)]
pub struct VoiceActivityDetectorBuilder {
    /// The chunk size, once provided.
    pub chunk_size: Option<usize>,
    /// The sample rate, once provided.
    pub sample_rate: Option<i64>,
}

impl VoiceActivityDetectorBuilder {
    /// Sets the chunk size.
    pub fn chunk_size(self, chunk_size: usize) -> (r: Self)
        ensures
            r.chunk_size == Some(chunk_size),
            r.sample_rate == self.sample_rate,
    {
        Self { chunk_size: Some(chunk_size), sample_rate: self.sample_rate }
    }

    /// Sets the sample rate.
    pub fn sample_rate(self, sample_rate: i64) -> (r: Self)
        ensures
            r.sample_rate == Some(sample_rate),
            r.chunk_size == self.chunk_size,
    {
        Self { chunk_size: self.chunk_size, sample_rate: Some(sample_rate) }
    }

    /// Validates the configuration and builds the detector: `Ok` exactly when
    /// `sample_rate / chunk_size <= 31.25`, and otherwise the configuration
    /// error carrying both offending values.
    pub fn build(self) -> (r: Result<VoiceActivityDetector, Error>)
        requires
            self.chunk_size is Some,
            self.sample_rate is Some,
        ensures
            match r {
                Ok(vad) => {
                    &&& Some(vad.chunk_size) == self.chunk_size
                    &&& Some(vad.sample_rate) == self.sample_rate
                    &&& config_valid(vad.chunk_size, vad.sample_rate)
                },
                Err(e) => {
                    &&& !config_valid(self.chunk_size->0, self.sample_rate->0)
                    &&& e == (Error::VadConfigError {
                        sample_rate: self.sample_rate->0,
                        chunk_size: self.chunk_size->0,
                    })
                },
            },
    {
        match (self.chunk_size, self.sample_rate) {
            (Some(chunk_size), Some(sample_rate)) => {
                if 4 * (sample_rate as i128) > 125 * (chunk_size as i128) {
                    Err(Error::VadConfigError { sample_rate, chunk_size })
                } else {
                    Ok(VoiceActivityDetector { chunk_size, sample_rate })
                }
            },
            _ => {
                proof {
                    assert(false);
                }
                Err(Error::VadConfigError { sample_rate: 0, chunk_size: 0 })
            },
        }
    }
}

impl VoiceActivityDetector {
    /// Creates a new [`VoiceActivityDetectorBuilder`] with nothing set yet.
    pub fn builder() -> (r: VoiceActivityDetectorBuilder)
        ensures
            r.chunk_size is None,
            r.sample_rate is None,
    {
        VoiceActivityDetectorBuilder { chunk_size: None, sample_rate: None }
    }

    /// Gets the chunk size.
    pub fn chunk_size(&self) -> (r: usize)
        ensures
            r == self.chunk_size,
    {
        self.chunk_size
    }
}

} // verus!
