//! A self-balancing binary search tree with set semantics whose nodes live in
//! a single growable array: the node in slot `i` has its children in slots
//! `2*i + 1` and `2*i + 2`, as in a binary-heap layout, so child links are
//! computed addresses rather than stored references.

pub mod avl_tree;
pub mod laws;
pub mod slots;

mod buffer;

pub use avl_tree::AvlTree;
pub use avl_tree::DuplicateValue;
pub use avl_tree::NotFound;
