//! A binary search tree with parent back-references, stored in an index
//! arena.  Every node carries its key together with the indices of its
//! parent and of its two children; the engine maintains the links under
//! insertion, transplanting and deletion, and proves that the in-order
//! traversal of the live tree stays sorted while doing so.

pub mod shape;
pub mod bst;
pub mod laws;

pub use bst::NodeRecord;
pub use bst::BstNode;
