//! A rooted-tree container addressed by stable integer handles.
//!
//! Nodes live in a contiguous growable store of slots; index 0 is the
//! permanent root.  A free-index pool names the slots available to future
//! insertions.  The load-bearing ordering invariant — every live non-root
//! node's parent index is strictly less than its own — lets a single forward
//! scan answer children and descendant queries.

pub mod model;
pub mod tree;
pub mod laws;

pub use tree::Heap;
pub use model::Slot;
