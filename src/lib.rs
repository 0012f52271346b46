//! Sorts the files of a directory tree into one subdirectory per file
//! extension, records every change in a change log, and plans the steps that
//! undo a recorded run.
//!
//! Paths are handled as `/`-separated strings. All filesystem access lives
//! with the caller: this crate decides, names and records.

pub mod args;
pub mod paths;
pub mod log;
pub mod naming;
pub mod organizer;
pub mod restore;
