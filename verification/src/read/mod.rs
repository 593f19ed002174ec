//! Readers for e2store-based file formats.
//!
//! Provides three levels of abstraction over raw e2store entries:
//!
//! 1. **Raw entries**: `E2StoreReader` in `format::e2store` (type and bytes)
//! 2. **Typed entries**: [`EraReader`] yields [`TypedEntry`] with decoded payloads
//! 3. **Block assembly**: [`EraBlockReader`] combines related entries into complete blocks
//!
//! Additionally, [`EraRandomReader`] provides random access by slot number.
//!
//! # Format detection
//!
//! The readers detect whether a file is ERA (post-merge) or ERA1 (pre-merge)
//! from the type of the first entry that is not a version entry.

pub mod access;
pub mod block;
pub mod failures;
pub mod laws;
pub mod random;
pub mod typed;

pub use block::{Block, Era1Assembly, Era1Block, EraBlock, EraBlockReader};
pub use random::{EraRandomReader, SlotLookupError};
pub use typed::{EraFormat, EraReader, TypedEntry};
