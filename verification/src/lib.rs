//! Rendering of an escape-time fractal into an 8-bit grayscale raster.
//!
//! The library holds the parts of the work that are arithmetic on whole
//! numbers and bytes: the raster and its row-major buffer, the partition of
//! its rows into bands for parallel workers, the filling of a band, the
//! escape-time count, and the reading of a pair of values from text. Points
//! of the plane and the arithmetic on them are the caller's: they come in
//! as closures. Every function carries a contract that is proved of it.

pub mod arith;
pub mod bands;
pub mod compose;
pub mod error;
pub mod escape;
pub mod parse;
pub mod raster;
