//! A verified model of a small set of local-filesystem operations: listing
//! the immediate files of a directory, moving files between directories, and
//! toggling a per-file "hidden" state under two platform conventions (an
//! attribute bit in file metadata, or a leading dot in the file name).
//!
//! The library works on directory snapshots: plain values that hold the
//! immediate entries of a directory. A caller takes a snapshot of the real
//! directory, runs one operation here, and then performs the returned actions
//! (renames and attribute writes) against the real filesystem.

pub mod laws;
pub mod model;
pub mod ops;
