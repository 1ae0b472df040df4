//! Directory-level orchestration for an append-only, segmented log store.
//!
//! Records live in fixed-capacity segment files, each paired with a sparse
//! index file keyed by the same starting offset. The [`file_set::FileSet`]
//! reconstructs consistent state from a set of discovered pairs, keeps exactly
//! one writable (active) pair, routes offset lookups to the pair responsible
//! for an offset, and rolls the active pair into the closed history when it
//! fills up.

pub mod file_set;
pub mod index;
pub mod options;
pub mod segment;
