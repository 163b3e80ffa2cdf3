//! Parent/child/sibling bookkeeping for trees whose nodes live in an outside arena.
//!
//! The engine keeps, per node, an `Up` record (parent and siblings), a `Down` record
//! (first and last child, number of children, number of descendants) and a `Layer`
//! record (depth and root), all held by a storage that implements `StorageMut`.
pub mod records;
pub mod storage;
pub mod model;
pub mod slot_map_tree;
pub mod tree;
pub mod laws;

pub use records::{Down, InsertType, Layer, TreeKey, Up, NULL_DEPTH};
pub use slot_map_tree::SlotMapTree;
pub use tree::{ChildrenIterator, RecursiveIterator, Tree};
pub use storage::{Storage, StorageMut};

