//! A single-slot concurrent-style container and two collections built on it.
//!
//! The heart of the crate is [`AtomicCell`], a cell that publishes one value
//! at a time and reclaims superseded values through a chain of version nodes.
//! [`AtomicVec`] is an ordered copy-on-write sequence backed by one cell;
//! [`MlcMap`] is a hash-bucketed map whose entries carry an inner cell each,
//! so a value can be replaced in place without rewriting its bucket.

pub mod cell;
pub mod key;
pub mod mlc_map;
pub mod mlc_vec;

pub use cell::AtomicCell;
pub use key::MapKey;
pub use mlc_map::MapIter;
pub use mlc_map::MlcMap;
pub use mlc_vec::AtomicVec;
