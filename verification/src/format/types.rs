//! Central registry of all e2store type codes.

use vstd::prelude::*;

verus! {

// Generic e2store

/// Version entry: must be the first entry in every e2store file.
pub const TYPE_VERSION: [u8; 2] = [0x65, 0x32];

/// Empty type: padding or alignment. May have a length above 0; data should be skipped.
pub const TYPE_EMPTY: [u8; 2] = [0x00, 0x00];

// Indexes

/// Block index (Era1, E2HS). Fixed array of offsets.
pub const TYPE_BLOCK_INDEX: [u8; 2] = [0x66, 0x32];

/// Dynamic block index (Ere). Variable-length structure for genesis-to-head.
pub const TYPE_DYNAMIC_BLOCK_INDEX: [u8; 2] = [0x67, 0x32];

/// Generic slot index (Era, sometimes Era1). Distinguished by position: the
/// first one of a file is its block index, a later one its state index.
pub const TYPE_SLOT_INDEX: [u8; 2] = [0x69, 0x32];

/// State slot index.
pub const TYPE_STATE_INDEX: [u8; 2] = [0x33, 0x00];

// Era (beacon chain history)

/// Snappy-compressed `SignedBeaconBlock`.
pub const TYPE_COMPRESSED_SIGNED_BEACON_BLOCK: [u8; 2] = [0x01, 0x00];

/// Snappy-compressed `BeaconState`.
pub const TYPE_COMPRESSED_BEACON_STATE: [u8; 2] = [0x02, 0x00];

// Era1 / E2HS (execution layer history)

/// Snappy-compressed RLP block header.
pub const TYPE_COMPRESSED_HEADER: [u8; 2] = [0x03, 0x00];

/// Snappy-compressed RLP block header with canonical proof (E2HS).
pub const TYPE_COMPRESSED_HEADER_WITH_PROOF: [u8; 2] = [0x03, 0x01];

/// RLP-encoded block body.
pub const TYPE_COMPRESSED_BODY: [u8; 2] = [0x04, 0x00];

/// RLP-encoded receipts.
pub const TYPE_COMPRESSED_RECEIPTS: [u8; 2] = [0x05, 0x00];

/// SSZ-encoded total difficulty.
pub const TYPE_TOTAL_DIFFICULTY: [u8; 2] = [0x06, 0x00];

/// SSZ hash tree root of `List[HeaderRecord, 8192]`.
pub const TYPE_ACCUMULATOR: [u8; 2] = [0x07, 0x00];

// E2SS (execution state snapshots)

/// Snappy-compressed SSZ account.
pub const TYPE_COMPRESSED_ACCOUNT: [u8; 2] = [0x08, 0x00];

/// Snappy-compressed SSZ storage.
pub const TYPE_COMPRESSED_STORAGE: [u8; 2] = [0x09, 0x00];

// Ere (full execution history)

/// Snappy-compressed slim receipts.
pub const TYPE_COMPRESSED_SLIM_RECEIPTS: [u8; 2] = [0x0a, 0x00];

/// Proof data.
pub const TYPE_PROOF: [u8; 2] = [0x0b, 0x00];

/// The two bytes of an entry type as one number, first byte first.
pub open spec fn type_code(typ: [u8; 2]) -> int {
    typ[0] * 256 + typ[1]
}

/// The codes of the entry types that the readers and writers tell apart.
pub proof fn lemma_type_codes()
    ensures
        type_code(TYPE_VERSION) == 0x6532,
        type_code(TYPE_BLOCK_INDEX) == 0x6632,
        type_code(TYPE_SLOT_INDEX) == 0x6932,
        type_code(TYPE_STATE_INDEX) == 0x3300,
        type_code(TYPE_COMPRESSED_SIGNED_BEACON_BLOCK) == 0x0100,
        type_code(TYPE_COMPRESSED_BEACON_STATE) == 0x0200,
        type_code(TYPE_COMPRESSED_HEADER) == 0x0300,
        type_code(TYPE_COMPRESSED_BODY) == 0x0400,
        type_code(TYPE_COMPRESSED_RECEIPTS) == 0x0500,
        type_code(TYPE_TOTAL_DIFFICULTY) == 0x0600,
        type_code(TYPE_ACCUMULATOR) == 0x0700,
{
}

/// Whether two entry types are the same.
pub fn same_type(a: [u8; 2], b: [u8; 2]) -> (r: bool)
    ensures
        r == (a == b),
{
    let r: bool = a[0] == b[0] && a[1] == b[1];
    assert(r <==> a =~= b);
    r
}

/// The official name of an entry type.
pub open spec fn entry_type_text(typ: [u8; 2]) -> Seq<char> {
    if typ == TYPE_VERSION {
        "Version"@
    } else if typ == TYPE_EMPTY {
        "Empty"@
    } else if typ == TYPE_COMPRESSED_SIGNED_BEACON_BLOCK {
        "CompressedSignedBeaconBlock"@
    } else if typ == TYPE_COMPRESSED_BEACON_STATE {
        "CompressedBeaconState"@
    } else if typ == TYPE_COMPRESSED_HEADER {
        "CompressedHeader"@
    } else if typ == TYPE_COMPRESSED_HEADER_WITH_PROOF {
        "CompressedHeaderWithProof"@
    } else if typ == TYPE_COMPRESSED_BODY {
        "CompressedBody"@
    } else if typ == TYPE_COMPRESSED_RECEIPTS {
        "CompressedReceipts"@
    } else if typ == TYPE_TOTAL_DIFFICULTY {
        "TotalDifficulty"@
    } else if typ == TYPE_ACCUMULATOR {
        "Accumulator"@
    } else if typ == TYPE_COMPRESSED_ACCOUNT {
        "CompressedAccount"@
    } else if typ == TYPE_COMPRESSED_STORAGE {
        "CompressedStorage"@
    } else if typ == TYPE_COMPRESSED_SLIM_RECEIPTS {
        "CompressedSlimReceipts"@
    } else if typ == TYPE_PROOF {
        "Proof"@
    } else if typ == TYPE_BLOCK_INDEX {
        "BlockIndex"@
    } else if typ == TYPE_DYNAMIC_BLOCK_INDEX {
        "DynamicBlockIndex"@
    } else if typ == TYPE_SLOT_INDEX {
        "SlotIndex"@
    } else {
        "Unknown"@
    }
}

/// Map a 2-byte entry type to its official name.
pub fn entry_type_name(typ: &[u8; 2]) -> (name: &'static str)
    ensures
        name@ == entry_type_text(*typ),
{
    if same_type(*typ, TYPE_VERSION) {
        "Version"
    } else if same_type(*typ, TYPE_EMPTY) {
        "Empty"
    } else if same_type(*typ, TYPE_COMPRESSED_SIGNED_BEACON_BLOCK) {
        "CompressedSignedBeaconBlock"
    } else if same_type(*typ, TYPE_COMPRESSED_BEACON_STATE) {
        "CompressedBeaconState"
    } else if same_type(*typ, TYPE_COMPRESSED_HEADER) {
        "CompressedHeader"
    } else if same_type(*typ, TYPE_COMPRESSED_HEADER_WITH_PROOF) {
        "CompressedHeaderWithProof"
    } else if same_type(*typ, TYPE_COMPRESSED_BODY) {
        "CompressedBody"
    } else if same_type(*typ, TYPE_COMPRESSED_RECEIPTS) {
        "CompressedReceipts"
    } else if same_type(*typ, TYPE_TOTAL_DIFFICULTY) {
        "TotalDifficulty"
    } else if same_type(*typ, TYPE_ACCUMULATOR) {
        "Accumulator"
    } else if same_type(*typ, TYPE_COMPRESSED_ACCOUNT) {
        "CompressedAccount"
    } else if same_type(*typ, TYPE_COMPRESSED_STORAGE) {
        "CompressedStorage"
    } else if same_type(*typ, TYPE_COMPRESSED_SLIM_RECEIPTS) {
        "CompressedSlimReceipts"
    } else if same_type(*typ, TYPE_PROOF) {
        "Proof"
    } else if same_type(*typ, TYPE_BLOCK_INDEX) {
        "BlockIndex"
    } else if same_type(*typ, TYPE_DYNAMIC_BLOCK_INDEX) {
        "DynamicBlockIndex"
    } else if same_type(*typ, TYPE_SLOT_INDEX) {
        "SlotIndex"
    } else {
        "Unknown"
    }
}

} // verus!
