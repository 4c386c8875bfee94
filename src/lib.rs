//! Multi-resolution caches for long, growing time series.
//!
//! Each line keeps its samples at full resolution (level 0) and up to
//! `MAX_DOWNSAMPLING_STEPS` coarser levels, each built from its parent by
//! reducing buckets of `DOWNSAMPLING_BUCKET_SIZE` entries to two.
//!
//! Positions are integers (an offset from the line's first position) and
//! values are integers compared by their natural order; a host that plots
//! floating-point data maps each value to an order-preserving integer key.
use vstd::prelude::*;

pub mod downsample;
pub mod line;
pub mod memory;

pub use downsample::{DownsamplingMethod, Entry, Sample};
pub use line::{PlotBounds, TimeseriesLineMemory};
pub use memory::TimeseriesPlotMemory;

verus! {

/// Number of entries of a level reduced to two entries of the next level.
pub const DOWNSAMPLING_BUCKET_SIZE: usize = 8;

/// Largest number of points handed out for one view, where a level allows it.
pub const MAX_POINTS: usize = 4000;

/// Number of levels beyond level 0.
pub const MAX_DOWNSAMPLING_STEPS: usize = 5;

} // verus!
