//! Toolkit for Ethereum ERA and ERA1 history archives.

pub mod bytes;
pub mod cli;
pub mod convert;
pub mod error;
pub mod format;
pub mod fs;
pub mod model;
pub mod notation;
pub mod read;
pub mod text;
pub mod verify;
pub mod write;

pub use read::{
    Block, Era1Block, EraBlock, EraBlockReader, EraFormat, EraRandomReader, EraReader,
    SlotLookupError, TypedEntry,
};
