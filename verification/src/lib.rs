//! An ordered key/payload container: an unbalanced binary search tree whose
//! nodes live in a slot arena and refer to each other by slot index.

pub mod arena;
pub mod grow;
pub mod keys;
pub mod node;
pub mod shape;
pub mod splice;
pub mod tree;

pub use arena::Arena;
pub use keys::Probe;
pub use keys::SearchKey;
pub use node::Content;
pub use tree::BSTIterator;
pub use tree::BinarySearchTree;
pub use tree::InsertionResult;
