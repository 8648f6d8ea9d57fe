//! The persistent B-tree and the pieces it is made of.
pub mod btree;
pub mod bucketref;
pub mod flat;
pub mod freeze;
pub mod memnode;
pub mod nodeptr;
pub mod nodestack;
pub mod noderef;
pub mod persistent;
pub mod util;
pub mod window;
