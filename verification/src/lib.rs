//! A splay tree: a self-adjusting binary search tree whose every access moves
//! the key that was looked for, or its neighbour on the search path, to the root.

pub mod laws;
pub mod node;
pub mod order;
pub mod search;
pub mod splay;
pub mod tree;

pub use node::Node;
pub use node::SplayNode;
pub use tree::SplayTree;
pub use tree::Splayable;
