//! The file-system side: filters over directory entries, path helpers and
//! directory statistics.

pub mod dir;
pub mod error;
pub mod file;
pub mod filter;
pub mod text;
