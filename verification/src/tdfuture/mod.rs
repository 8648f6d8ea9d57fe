//! Helpers for futures.
pub mod phkt;
