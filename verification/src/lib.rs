//! A docking-panel layout engine: a recursive tree of splitters and tabbed
//! panel groups, drawn by a resumable stack-machine traversal, together with
//! the window-state bookkeeping of the hosting context.
//!
//! The tree of [`tree::DockItem`] nodes is the source of truth. The draw
//! traversal walks it, lazily materialises per-node runtime state in
//! registries and sweeps state for nodes that are no longer reachable.
//! Structural mutations (closing a tab, unsplitting) keep the tree invariants.

pub mod cx;
pub mod dock;
pub mod draw;
pub mod events;
pub mod geom;
pub mod idmap;
pub mod laws;
pub mod tree;
pub mod window;

use vstd::prelude::*;

verus! {

} // verus!
