//! A region quadtree over integer coordinates: stores points and answers
//! which of them fall inside a query shape.
pub mod geometry;
pub mod tree;

pub use geometry::{Circle, Point, Rectangle, Region, Shape};
pub use tree::QuadTree;
