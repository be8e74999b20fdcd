//! Single-linkage clustering of 2D points under a fixed radius.
//!
//! Points live in the half-open unit square, held in fixed-point
//! coordinates (micro-units), so every geometric test is exact integer
//! arithmetic.  The plane is cut into a uniform grid whose cell side is
//! close to `radius / sqrt(2)`; connected components of non-empty cells
//! under a bounded neighbourhood relation are then coloured by an
//! explicit-stack flood fill, and the point count of each component is
//! reported in descending order.

pub mod geometry;
pub mod grid;
pub mod labeling;
pub mod parse;
pub mod pipeline;
pub mod sorting;
