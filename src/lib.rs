//! An unbalanced binary search tree holding distinct values of an ordered
//! type, with insertion, membership, removal, smallest and largest value, and
//! access to the root's children.
pub mod laws;
pub mod order;
pub mod tree;

pub use order::OrderedValue;
pub use tree::{Node, Tree};
