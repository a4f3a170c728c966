//! A multi-way equi-join engine over binary relations that are stored as one
//! line-oriented file of tab-separated triples.
//!
//! The library parses a byte buffer into a catalogue of relations, turns the
//! relations into pairs of buffer offsets, and joins them with a hash join or a
//! sort-merge join. Every function carries a contract that Verus proves.

pub mod args;
pub mod bytes;
pub mod chunks;
pub mod driver;
pub mod expect_lazy;
pub mod extending;
pub mod hash;
pub mod indented;
pub mod input;
pub mod join;
pub mod partial_eq;
pub mod partition;
pub mod pipeline;
pub mod relation;
pub mod sort_merge;
pub mod strmap;
pub mod sums;
pub mod validation;
