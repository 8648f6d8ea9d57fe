//! Byte containers and byte-level helpers shared by the other modules.
pub mod order;
pub mod range;
pub mod rcbytes;
pub mod rcslice;
pub mod seq_util;
pub mod slice;
pub mod traits;
pub mod util;
pub mod weak;
