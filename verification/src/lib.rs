//! Hilbert space-filling curves over two- and three-dimensional grids.
//!
//! The curve is produced by a pipeline of three stages: the binary reflected
//! Gray code enumerates the cells, the Skilling transform turns each Gray
//! code into an axis-interleaved Hilbert index, and the coordinate codec
//! splits that index into one integer per axis.
pub mod bits;
pub mod brgc;
pub mod coordinate_codec;
pub mod curve_laws;
pub mod hilbert_curve;
pub mod planar_curve;
pub mod skilling_inverse;
pub mod skilling_levels;
pub mod skilling_transform;

pub use hilbert_curve::{BuildError, HilbertCurve};
