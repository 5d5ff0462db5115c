//! Listening and pattern recognition over ternary signal streams.
//!
//! Every signal value is one of -1, 0 and +1; the stateful listeners clamp
//! whatever they are given into that range.

pub mod pattern;
pub mod signal;
pub mod rhythm;
pub mod ear;
pub mod frequency;
pub mod harmonic;
pub mod memory;
pub mod training;

pub use crate::ear::Ear;
pub use crate::frequency::FrequencyDetector;
pub use crate::harmonic::HarmonicAnalyzer;
pub use crate::memory::EarMemory;
pub use crate::pattern::Pattern;
pub use crate::rhythm::RhythmTracker;
pub use crate::training::EarTraining;
