//! An append-only arena of tree-shaped nodes.
//!
//! Nodes are stored in a table of lazily allocated buckets whose sizes double,
//! so a node never moves once it is stored. Every node knows its parent, its most
//! recently added child and its next (previously added) sibling; the children of
//! a node therefore form a list that runs from the newest child to the oldest.
pub mod arena;
pub mod bucket;
pub mod index;
pub mod location;
pub mod node;
mod sealed;
pub mod slot;
pub mod tree;

pub use arena::{Arena, Error};
pub use index::{AsParent, Index};
pub use location::{Location, BUCKETS, MAX_INDEX, SLOTS, ZERO_BUCKET, ZERO_SLOT};
pub use node::{Ancestors, Handle, Next, Node};
