pub mod laws;
pub mod sums;
pub mod tree;

pub use tree::{SegTree, SegTreeError};
