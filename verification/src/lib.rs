//! A tidy tree layout engine: non-overlapping, compact 2D coordinates for the
//! nodes of an ordered tree, with incremental relayout after local edits.

pub mod arith;
pub mod node;
pub mod ylist;
pub mod dirty;
pub mod engine;
pub mod tidy;
pub mod geometry;
pub mod plot;
pub mod laws;
pub mod tree;
pub mod traverse;

pub use engine::LayoutConfig;
pub use geometry::{Orientation, Point};
pub use node::LayoutNode;
pub use plot::SvgPlotter;
pub use tidy::{LayoutType, TidyTree, NULL_ID};
pub use traverse::Traverse;
pub use tree::{TreeLayout, TreeNode};
