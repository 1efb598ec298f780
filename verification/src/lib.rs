//! A quadtree image codec: recursive spatial decomposition of a pixel grid,
//! bottom-up region-merging compression (exact and average policies), and
//! reconstruction of a pixel grid from the tree.

pub mod builder;
pub mod color;
pub mod grid;
pub mod laws;
pub mod merge;
pub mod quadtree;
pub mod queries;
pub mod render;
pub mod text;
pub mod tree;

pub use color::Color;
pub use grid::Grid;
pub use quadtree::QuadTree;
pub use tree::{Node, Rect};
