//! Fanout configuration. A branch holds at most `BRANCH_FANOUT` children
//! and a leaf at most `LEAF_FANOUT` entries; both bounds must exceed 3 so
//! that a full node can be split into two non-empty halves with room to
//! spare. `Tree64` names the 64/64 configuration the crate is built with.

use vstd::prelude::*;

verus! {

/// Maximum number of children of a branch node.
pub const BRANCH_FANOUT: usize = 64;

/// Maximum number of entries of a leaf node.
pub const LEAF_FANOUT: usize = 64;

/// Marker for the ownership model of the node cells: every branch, and
/// the tree itself, exclusively owns its children, holding them by
/// value in its child array. This is the only ownership model the
/// crate provides; no node is ever shared between trees, so mutation
/// never needs a copy-on-write step.
#[derive(Clone, Copy, Debug)]
pub struct Unique;

/// Marker for the configuration provided by this crate: branch and leaf
/// fanout of 64, with `Unique` ownership of the children.
#[derive(Clone, Copy, Debug)]
pub struct Tree64;

} // verus!
