//! A file system to try things on.

pub mod mock;
