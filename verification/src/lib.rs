//! Trajectory compression and grid clustering over fixed-point coordinates.
//!
//! Coordinates travel as signed 32-bit integers holding degrees scaled by
//! 10^5. The codec turns a flat interleaved sequence of those integers into
//! points and back. The simplifier reduces a trajectory with the
//! Ramer-Douglas-Peucker rule, driven as an explicit work stack over index
//! ranges so that a caller supplies the measured deviation of each interior
//! point from the current chord. The grid module aggregates points into
//! square cells, given each point's cell key, and emits per-cell truncated
//! centroids and counts.
//!
//! The geometry that measures deviations and derives cell keys works in
//! floating point (equirectangular projection, haversine), which stays with
//! the caller; everything decided from those measurements is verified here.
use vstd::prelude::*;

pub mod point;
pub mod codec;
pub mod simplify;
pub mod grid;

verus! {

} // verus!
