//! Reconciliation of multiple on-disk copies of one logical file.
//!
//! Several partially downloaded copies of the same payload may each hold a
//! different subset of its bytes, with missing regions zero-filled.  This
//! crate checks whether a group of such copies is mutually consistent (no two
//! copies disagree on a non-zero byte at the same position), synthesizes the
//! byte-wise union of all copies, classifies each copy as complete or
//! incomplete against that union, and plans how the union is applied to the
//! incomplete copies.  All file discovery and I/O stays with the caller; the
//! logic here operates on plain byte vectors and path strings.

pub mod apply;
pub mod engine;
pub mod group;
pub mod merger;
pub mod summary;
