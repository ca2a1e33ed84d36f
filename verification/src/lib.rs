//! Streaming voice-activity classification.
//!
//! A stream of audio samples is grouped into fixed-size chunks; an external
//! predictor assigns each chunk a speech probability (represented here as a
//! fixed-point integer); the state machines in this crate then either label
//! every chunk as speech or non-speech with symmetric padding around speech
//! boundaries, or merge contiguous speech chunks into bounded-length segments.

use vstd::prelude::*;

verus! {

/// Probabilities and thresholds are fixed-point integers in millionths:
/// `1_000_000` stands for certainty. The external predictor's floating-point
/// probability in `[0, 1]` is scaled by this factor before it reaches the
/// state machines.
pub const PROBABILITY_SCALE: u32 = 1000000;

} // verus!

pub mod error;
pub mod label;
pub mod predict;
pub mod segment;
pub mod vad;

pub use error::Error;
pub use label::LabelModel;
pub use label::LabelState;
pub use label::LabelStateInner;
pub use label::LabeledAudio;
pub use label::label_chunks;
pub use predict::PredictState;
pub use predict::chunk_samples;
pub use segment::SegmentMergerState;
pub use segment::SegmentModel;
pub use segment::segment_chunks;
pub use vad::VoiceActivityDetector;
pub use vad::VoiceActivityDetectorBuilder;
