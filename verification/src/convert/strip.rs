//! Strip optional data from ERA/ERA1 files to reduce size.
//!
//! Common use cases:
//! - Remove receipts
//! - Remove beacon state (useful if you only need block history)
//! - Remove block accumulator (if not verifying historical roots)

use vstd::prelude::*;

use crate::convert::reindex;
use crate::error::Error;
use crate::format::types;
use crate::model;

verus! {

/// Which entries to leave out.
#[derive(Debug, Clone, Copy)]
pub struct StripConfig {
    pub receipts: bool,
    pub bodies: bool,
    pub total_difficulty: bool,
    pub state: bool,
    pub accumulator: bool,
}

impl StripConfig {
    /// Nothing is left out.
    pub open spec fn nothing() -> StripConfig {
        StripConfig {
            receipts: false,
            bodies: false,
            total_difficulty: false,
            state: false,
            accumulator: false,
        }
    }

    /// What either of two configurations leaves out is left out.
    pub open spec fn or(self, other: StripConfig) -> StripConfig {
        StripConfig {
            receipts: self.receipts || other.receipts,
            bodies: self.bodies || other.bodies,
            total_difficulty: self.total_difficulty || other.total_difficulty,
            state: self.state || other.state,
            accumulator: self.accumulator || other.accumulator,
        }
    }

    /// Whether entries of this type stay in the file.
    pub open spec fn keeps(self, typ: [u8; 2]) -> bool {
        !((self.receipts && typ == types::TYPE_COMPRESSED_RECEIPTS) || (self.bodies && typ
            == types::TYPE_COMPRESSED_BODY) || (self.total_difficulty && typ
            == types::TYPE_TOTAL_DIFFICULTY) || (self.state && typ
            == types::TYPE_COMPRESSED_BEACON_STATE) || (self.accumulator && typ
            == types::TYPE_ACCUMULATOR))
    }

    /// Create a config that strips receipts.
    pub fn receipts_only() -> (c: Self)
        ensures
            c == (StripConfig { receipts: true, ..StripConfig::nothing() }),
            c.receipts && !c.bodies && !c.total_difficulty && !c.state && !c.accumulator,
    {
        StripConfig {
            receipts: true,
            bodies: false,
            total_difficulty: false,
            state: false,
            accumulator: false,
        }
    }

    /// Create a config that strips everything except block headers: each of the
    /// parts that can be stripped. Entries of other types stay.
    pub fn keep_headers_only() -> (c: Self)
        ensures
            c.receipts && c.bodies && c.total_difficulty && c.state && c.accumulator,
    {
        StripConfig {
            receipts: true,
            bodies: true,
            total_difficulty: true,
            state: true,
            accumulator: true,
        }
    }

    /// Whether entries of this type stay in the file.
    pub fn should_keep(&self, typ: &[u8; 2]) -> (r: bool)
        ensures
            r == self.keeps(*typ),
    {
        !((self.receipts && types::same_type(*typ, types::TYPE_COMPRESSED_RECEIPTS)) || (
        self.bodies && types::same_type(*typ, types::TYPE_COMPRESSED_BODY)) || (
        self.total_difficulty && types::same_type(*typ, types::TYPE_TOTAL_DIFFICULTY)) || (
        self.state && types::same_type(*typ, types::TYPE_COMPRESSED_BEACON_STATE)) || (
        self.accumulator && types::same_type(*typ, types::TYPE_ACCUMULATOR)))
    }
}

impl Default for StripConfig {
    fn default() -> (c: Self)
        ensures
            c == StripConfig::nothing(),
            !c.receipts && !c.bodies && !c.total_difficulty && !c.state && !c.accumulator,
    {
        StripConfig {
            receipts: false,
            bodies: false,
            total_difficulty: false,
            state: false,
            accumulator: false,
        }
    }
}

/// Strips configured entry types from an ERA/ERA1 file, rebuilds the indexes
/// and appends the file to `writer`.
pub fn strip(reader: &[u8], writer: &mut Vec<u8>, config: &StripConfig) -> (r: Result<(), Error>)
    requires
        reindex::reindexable(reader@),
    ensures
        model::outcome(r) == reindex::result_of(reader@),
        final(writer)@ == old(writer)@ + reindex::output_of(reader@, *config),
{
    reindex::reindex_filtered(reader, writer, config)
}

} // verus!
