//! Looks for new versions of packages that are described by spec files.
//!
//! Everything here computes on plain values: files, processes and the network belong to the
//! program around the library.

pub mod context;
pub mod macros;
pub mod parser;
pub mod patterns;
pub mod report;
pub mod select;
pub mod spec_file;
pub mod text;
pub mod worker;
