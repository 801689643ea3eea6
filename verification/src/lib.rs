//! Incremental fractal generation and rasterization.
//!
//! The crate generates self-similar geometry (subdivision families,
//! grammar-driven turtle trees and an escape-time field) and rasterizes
//! the resulting primitives onto an integer pixel buffer.  All geometry
//! is carried in fixed-point coordinates so that every arithmetic step
//! has an exact contract.

use vstd::prelude::*;

pub mod buffer;
pub mod cantor;
pub mod circle_line;
pub mod circle_space;
pub mod colours;
pub mod diablos_tree;
pub mod fixed;
pub mod grammar;
pub mod koch;
pub mod lsystree;
pub mod mandelbrot;
pub mod matrix;
pub mod raster;
pub mod sierpinski;
pub mod simple_tree;
pub mod tree;
pub mod turtle;
pub mod vector;

verus! {

/// A primitive wandered outside the coordinate range the geometry
/// engines work in; the generation is left as it was.
#[derive(Clone, Copy, PartialEq, Eq, Structural, Debug)]
pub enum GeomError {
    OutOfRange,
}

} // verus!
