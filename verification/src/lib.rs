//! A verified model of partial knowledge of a two-dimensional occupancy field:
//! a grid of per-cell scalar estimators together with two boolean bitmaps, one
//! holding the fixed ground truth and one holding the current sampled
//! realization of the belief field.

pub mod fbits;
pub mod bitgrid;
pub mod grid;
