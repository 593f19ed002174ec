//! ERA1 file format: pre-merge execution layer history.
//!
//! An ERA1 file contains up to 8192 blocks from before the merge. Each block
//! comprises a compressed header, body and receipts and an uncompressed total
//! difficulty (32 bytes). The accumulator root and a block index end the file.

use vstd::prelude::*;

use crate::text;

pub use crate::format::types::{
    TYPE_ACCUMULATOR as TYPE_BLOCK_ACCUMULATOR, TYPE_COMPRESSED_BODY as TYPE_BLOCK_BODY,
    TYPE_COMPRESSED_HEADER, TYPE_COMPRESSED_RECEIPTS as TYPE_RECEIPTS, TYPE_TOTAL_DIFFICULTY,
};

verus! {

/// Maximum number of blocks per ERA1 file.
pub const MAX_ERA1_BLOCKS: usize = 8192;

/// 32-byte hash.
pub type B256 = [u8; 32];

/// The 32 bytes of `data` that start at `at`.
pub fn array_at(data: &[u8], at: usize) -> (a: [u8; 32])
    requires
        at + 32 <= data@.len(),
    ensures
        a@ == data@.subrange(at as int, at + 32),
{
    let mut a: [u8; 32] = [0u8; 32];
    let mut i: usize = 0;
    assert(at + 32 <= data.len());
    while i < 32
        invariant
            i <= 32,
            at + 32 <= data.len(),
            a@.len() == 32,
            forall|k: int| 0 <= k < i ==> #[trigger] a@[k] == data@[at + k],
        decreases 32 - i,
    {
        a[i] = data[at + i];
        i = i + 1;
    }
    assert(a@ =~= data@.subrange(at as int, at + 32));
    a
}

/// The 32 bytes of the number 0.
pub const ZERO_BYTES: [u8; 32] = [
    0, 0, 0, 0, 0, 0, 0, 0, 0, 0, 0, 0, 0, 0, 0, 0, 0, 0, 0, 0, 0, 0, 0, 0, 0, 0, 0, 0, 0, 0, 0, 0,
];

/// 256-bit unsigned integer (little-endian bytes).
#[derive(Debug, Clone, Copy, PartialEq, Eq)]
pub struct U256(pub [u8; 32]);

impl U256 {
    pub fn zero() -> (r: Self)
        ensures
            r == zero_difficulty(),
    {
        U256(ZERO_BYTES)
    }
}

/// The number 0.
pub open spec fn zero_difficulty() -> U256 {
    U256(ZERO_BYTES)
}

/// SSZ `header-record := { block-hash: Bytes32, total-difficulty: Uint256 }`
///
/// The accumulator root is `hash_tree_root(List[HeaderRecord, 8192])`.
#[derive(Debug, Clone, Copy, PartialEq, Eq)]
pub struct HeaderRecord {
    pub block_hash: B256,
    pub total_difficulty: U256,
}

impl HeaderRecord {
    /// SSZ-encoded size: 32 + 32 = 64 bytes.
    pub const SSZ_SIZE: usize = 64;

    /// The SSZ bytes of the record.
    pub open spec fn ssz(self) -> Seq<u8> {
        self.block_hash@ + self.total_difficulty.0@
    }

    /// Decode the record that `data` starts with.
    pub fn decode_ssz(data: &[u8]) -> (r: Result<Self, String>)
        ensures
            match r {
                Ok(record) => data@.len() >= 64 && record.ssz() == data@.take(64),
                Err(message) => data@.len() < 64 && message@ == "header record too short: "@
                    + text::dec(data@.len()) + " < "@ + text::dec(64),
            },
    {
        if data.len() < Self::SSZ_SIZE {
            let mut s = "header record too short: ".to_owned();
            text::push_dec(&mut s, data.len() as u64);
            s.append(" < ");
            text::push_dec(&mut s, Self::SSZ_SIZE as u64);
            return Err(s);
        }
        let block_hash: B256 = array_at(data, 0);
        let total_difficulty = U256(array_at(data, 32));
        let record = HeaderRecord { block_hash, total_difficulty };
        assert(record.ssz() =~= data@.take(64));
        Ok(record)
    }

    pub fn encode_ssz(&self) -> (buf: Vec<u8>)
        ensures
            buf@ == self.ssz(),
    {
        let mut buf: Vec<u8> = Vec::new();
        buf.extend_from_slice(&self.block_hash);
        buf.extend_from_slice(&self.total_difficulty.0);
        assert(buf@ =~= self.ssz());
        buf
    }
}

/// A record is the only one with its SSZ bytes: decoding what it encodes to
/// gives it back.
pub proof fn header_record_roundtrip(record: HeaderRecord, decoded: HeaderRecord)
    requires
        decoded.ssz() == record.ssz().take(64),
    ensures
        decoded == record,
{
    assert(record.ssz().take(64) =~= record.ssz());
    assert(decoded.block_hash@ =~= decoded.ssz().take(32));
    assert(record.block_hash@ =~= record.ssz().take(32));
    assert(decoded.total_difficulty.0@ =~= decoded.ssz().skip(32));
    assert(record.total_difficulty.0@ =~= record.ssz().skip(32));
    assert(decoded.block_hash =~= record.block_hash);
    assert(decoded.total_difficulty.0 =~= record.total_difficulty.0);
}

} // verus!
