//! An unbalanced binary search tree with insertion and a lazy in-order
//! traversal.

pub mod order;
pub mod sorted;
pub mod node;
pub mod tree;
pub mod iter;

pub use node::Node;
pub use tree::Bst;
pub use iter::BstIterator;
