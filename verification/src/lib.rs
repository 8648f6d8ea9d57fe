//! An in-memory persistent B-tree keyed by byte strings, with snapshots, snapshot
//! differences and cursors, together with the byte containers and helpers it is
//! built from.
use vstd::prelude::*;

pub mod bench;
pub mod counter;
pub mod data;
pub mod tdfuture;
pub mod testlib;
pub mod tree;

verus! {
} // verus!
