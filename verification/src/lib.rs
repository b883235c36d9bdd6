//! Line-density rendering core.
//!
//! Many noisy realizations of a time series are each rasterized as a
//! connected polyline onto a column-normalized density grid; the grids are
//! summed by a commutative, associative reducer; the aggregate is mapped to
//! shades (white for empty cells, a blend parameter for the rest).
//!
//! Density values are held in fixed-point form: a fully normalized column
//! sums to `SCALE` (standing for 1.0), so aggregation is exact integer
//! addition and the reduction laws hold exactly, not merely up to rounding.

pub mod grid;
pub mod pipeline;
pub mod raster;
pub mod shade;
