//! Verified signal-reconstruction steps: bin filtering and window overlapping.

pub mod bins;
pub mod steps;
pub mod window;
