//! A rooted tree whose nodes live in one backing store and name each other
//! by position, with guards for reading and changing it, a relocating
//! garbage collector, and an ordered set built on top of it.

pub mod bst;
pub mod census;
pub mod collect;
pub mod convert;
pub mod effects;
pub mod guard;
pub mod laws;
pub mod model;
pub mod node;
pub mod operation;
pub mod order;
pub mod pinned_vec;
pub mod read;
pub mod reading;
pub mod rebuild;
pub mod shape;
pub mod traverse;
pub mod tree;

pub use bst::BinarySearchTree;
pub use convert::{IntoReadGuard, IntoWriteGuard};
pub use guard::{ChildWriteGuard, NodeOwnedGuard, NodeWriteGuard};
pub use node::{
    AboveMe, ChildId, ChildNotFound, InvalidBranchIndex, NoParent, NodeIndex, WrongChildrenNum,
};
pub use operation::TreeOperation;
pub use read::{NodeReadGuard, TreeReadTraverser};
pub use traverse::TreeWriteTraverser;
pub use tree::{DebugNodes, Tree};
