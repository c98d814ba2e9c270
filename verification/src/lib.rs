//! Estimation of the motion parameters of a sound source passing a stationary
//! observer, from the dominant-frequency trace of a recorded signal.
//!
//! The crate holds the verified core of the pipeline: the spectral feature
//! extractor that reduces a spectrogram to a per-time-step dominant-frequency
//! trace, the fixed-point acoustic travel-time model with its sum-of-squares
//! objective, and the state machine that drives a trust-region solver to a
//! terminal outcome. Audio decoding, the FFT, the floating-point solver steps
//! and chart rendering live outside the crate and only exchange plain values
//! with it.

pub mod driver;
pub mod model;
pub mod spectrum;
pub mod sums;
