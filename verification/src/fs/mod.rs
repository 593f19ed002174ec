//! Names of archive files and directories of them.

pub mod directory;
pub mod names;
pub mod naming;
