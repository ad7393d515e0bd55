//! Processing steps that work on streams of windows.

pub mod filter_bins;
pub mod overlap;
pub mod overlap_laws;
