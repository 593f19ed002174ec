//! ERA/ERA1 file verification.
//!
//! Performs structural validation of e2store-based archive files:
//!
//! | Check | Description |
//! |---|---|
//! | Structural | Valid e2store headers, version entry first |
//! | Decompression | All compressed entries decode without error |
//! | Index integrity | Block/state indexes decode, counts match, offsets valid |
//! | Offset resolution | Index offsets point to correct entry types within file bounds |
//! | Block groups | ERA1 blocks have complete header, body and td before next block |
//! | Cross-reference | State present and state index present, state index points to state |
//!
//! SHA256 manifest verification is in the [`hash`] submodule.

pub mod flaws;
pub mod hash;
pub mod laws;
pub mod manifest;
pub mod promises;
pub mod scan;
pub mod validity;

use std::collections::HashMap;

use vstd::prelude::*;

use crate::bytes;
use crate::format::e2store;
use crate::format::e2store::{E2StoreReader, Entry, EntryView};
use crate::format::era;
use crate::format::era::SlotIndexView;
use crate::format::types;
use crate::model;
use crate::read::typed;
use crate::read::typed::EraFormat;
use crate::text;
use crate::verify::scan::{Scan, ScanView};

verus! {

/// What the verification of a file found.
pub struct VerificationResult {
    pub valid: bool,
    /// Detected file format: `"ERA"` or `"ERA1"`.
    pub format: Option<String>,
    pub block_count: usize,
    pub state_present: bool,
    pub errors: Vec<String>,
    pub warnings: Vec<String>,
}

/// The model of [`VerificationResult`].
#[verifier::ext_equal]
pub struct VerificationResultView {
    pub valid: bool,
    pub format: Option<Seq<char>>,
    pub block_count: usize,
    pub state_present: bool,
    pub errors: Seq<Seq<char>>,
    pub warnings: Seq<Seq<char>>,
}

impl View for VerificationResult {
    type V = VerificationResultView;

    open spec fn view(&self) -> VerificationResultView {
        VerificationResultView {
            valid: self.valid,
            format: model::option_view(self.format),
            block_count: self.block_count,
            state_present: self.state_present,
            errors: model::views(self.errors@),
            warnings: model::views(self.warnings@),
        }
    }
}

/// The result for a file that cannot be looked into.
pub open spec fn unreadable(message: Seq<char>) -> VerificationResultView {
    VerificationResultView {
        valid: false,
        format: None,
        block_count: 0,
        state_present: false,
        errors: seq![message],
        warnings: Seq::empty(),
    }
}

/// How many of the first `n` offsets of an index at `pos` lead somewhere other
/// than to the start of the file.
pub open spec fn indexed_count(offsets: Seq<i64>, pos: u64, n: int) -> nat
    decreases n,
{
    if n <= 0 {
        0
    } else {
        indexed_count(offsets, pos, n - 1) + if leads_somewhere(offsets[n - 1], pos) {
            1nat
        } else {
            0nat
        }
    }
}

/// Whether an offset of an index at `pos` leads to an entry after the version.
pub open spec fn leads_somewhere(offset: i64, pos: u64) -> bool {
    offset != 0 && bytes::wrap64(pos + offset) != 0
}

/// Which of the first `n` entries starts at byte `at`, the version aside.
pub open spec fn entry_at(entries: Seq<EntryView>, n: int, at: u64) -> Option<int>
    decreases n,
{
    if n <= 1 {
        None
    } else if e2store::entry_pos(entries, n - 1) == at {
        Some(n - 1)
    } else {
        entry_at(entries, n - 1, at)
    }
}

/// Whether `map` tells which of the first `n` entries starts at which byte.
pub open spec fn locates(map: Map<u64, usize>, entries: Seq<EntryView>, n: int) -> bool {
    &&& forall|at: u64| #[trigger] map.contains_key(at) == (entry_at(entries, n, at) is Some)
    &&& forall|at: u64| #[trigger]
        map.contains_key(at) ==> entry_at(entries, n, at) == Some(map[at] as int)
}

/// The type of the entries that a block index leads to.
pub open spec fn block_type(format: Option<EraFormat>) -> Option<[u8; 2]> {
    match format {
        Some(EraFormat::Era) => Some(types::TYPE_COMPRESSED_SIGNED_BEACON_BLOCK),
        Some(EraFormat::Era1) => Some(types::TYPE_COMPRESSED_HEADER),
        None => None,
    }
}

/// The text for an offset that leads past the end of the file.
pub open spec fn past_end_text(slot: u64, abs: u64, file_size: u64) -> Seq<char> {
    "block index slot "@ + text::dec(slot as nat) + ": offset resolves to byte "@ + text::dec(
        abs as nat,
    ) + ", past file size "@ + text::dec(file_size as nat)
}

/// The text for an offset that leads to an entry of the wrong type.
pub open spec fn wrong_type_text(
    slot: u64,
    entry_idx: nat,
    actual: [u8; 2],
    expected: [u8; 2],
) -> Seq<char> {
    "block index slot "@ + text::dec(slot as nat) + ": offset points to entry "@ + text::dec(
        entry_idx,
    ) + " (type "@ + text::hex_byte(actual[0]) + text::hex_byte(actual[1]) + "), expected "@
        + text::hex_byte(expected[0]) + text::hex_byte(expected[1])
}

/// The text for an offset that leads into the middle of an entry.
pub open spec fn misaligned_text(slot: u64, abs: u64) -> Seq<char> {
    "block index slot "@ + text::dec(slot as nat) + ": offset resolves to byte "@ + text::dec(
        abs as nat,
    ) + ", which does not align to any entry boundary"@
}

/// What is wrong with the offset of `slot`, in an index at `pos` of a file that
/// holds `entries`: it leads past the end of the file, or not to an entry of
/// the expected type.
pub open spec fn slot_errors(
    entries: Seq<EntryView>,
    expected: Option<[u8; 2]>,
    pos: u64,
    slot: u64,
    offset: i64,
) -> Seq<Seq<char>> {
    let abs = bytes::wrap64(pos + offset);
    let file_size = e2store::file_bytes(entries).len() as u64;
    if !leads_somewhere(offset, pos) {
        Seq::empty()
    } else if abs >= file_size {
        seq![past_end_text(slot, abs, file_size)]
    } else {
        match expected {
            None => Seq::empty(),
            Some(typ) => match entry_at(entries, entries.len() as int, abs) {
                Some(k) => if entries[k].header.typ != typ {
                    seq![wrong_type_text(slot, k as nat, entries[k].header.typ, typ)]
                } else {
                    Seq::empty()
                },
                None => seq![misaligned_text(slot, abs)],
            },
        }
    }
}

/// What is wrong with the first `n` offsets of an index at `pos`.
pub open spec fn offset_errors(
    entries: Seq<EntryView>,
    expected: Option<[u8; 2]>,
    pos: u64,
    idx: SlotIndexView,
    n: int,
) -> Seq<Seq<char>>
    decreases n,
{
    if n <= 0 {
        Seq::empty()
    } else {
        offset_errors(entries, expected, pos, idx, n - 1) + slot_errors(
            entries,
            expected,
            pos,
            bytes::wrap64(idx.starting_slot + (n - 1)),
            idx.offsets[n - 1],
        )
    }
}

/// The text for a block index that does not count the blocks.
pub open spec fn count_text(indexed: nat, blocks: nat) -> Seq<char> {
    "block index has "@ + text::dec(indexed) + " non-zero offsets, file has "@ + text::dec(blocks)
        + " block entries"@
}

/// The text for a count field that does not count the offsets.
pub open spec fn count_field_text(count: u64, len: nat) -> Seq<char> {
    "block index count field ("@ + text::dec(count as nat)
        + ") does not match offset array length ("@ + text::dec(len) + ")"@
}

/// What is wrong with the block index of a file.
pub open spec fn block_index_errors(entries: Seq<EntryView>, v: ScanView) -> Seq<Seq<char>> {
    match v.block_index {
        None => seq!["missing block index"@],
        Some(idx) => {
            let indexed = indexed_count(idx.offsets, v.block_index_pos, idx.offsets.len() as int);
            (if indexed != v.block_count {
                seq![count_text(indexed, v.block_count as nat)]
            } else {
                Seq::empty()
            }) + offset_errors(
                entries,
                block_type(v.format),
                v.block_index_pos,
                idx,
                idx.offsets.len() as int,
            )
        },
    }
}

/// What is odd about the block index of a file.
pub open spec fn block_index_warnings(v: ScanView) -> Seq<Seq<char>> {
    match v.block_index {
        Some(idx) => if idx.count != idx.offsets.len() {
            seq![count_field_text(idx.count, idx.offsets.len())]
        } else {
            Seq::empty()
        },
        None => Seq::empty(),
    }
}

/// The text for a state index that leads somewhere else than to the state.
pub open spec fn state_offset_text(abs: u64, expected: u64) -> Seq<char> {
    "state index offset resolves to byte "@ + text::dec(abs as nat) + ", expected "@ + text::dec(
        expected as nat,
    )
}

/// What is wrong with the state index of a file.
pub open spec fn state_index_errors(v: ScanView) -> Seq<Seq<char>> {
    match v.state_pos {
        None => Seq::empty(),
        Some(state_pos) => match v.state_index {
            None => seq!["beacon state present but state index missing"@],
            Some(idx) => if idx.offsets.len() == 0 {
                seq!["state index contains no offsets"@]
            } else if idx.offsets[0] == 0 {
                seq!["state index offset is 0 (does not reference state)"@]
            } else {
                let abs = bytes::wrap64(v.state_index_pos + idx.offsets[0]);
                if abs != state_pos {
                    seq![state_offset_text(abs, state_pos)]
                } else {
                    Seq::empty()
                }
            },
        },
    }
}

/// What is odd about the state index of a file.
pub open spec fn state_index_warnings(v: ScanView) -> Seq<Seq<char>> {
    if v.state_pos is None && v.state_index is Some {
        seq!["state index present but no beacon state entry found"@]
    } else {
        Seq::empty()
    }
}

/// All errors of a file whose entries leave the scan in state `v`.
pub open spec fn all_errors(entries: Seq<EntryView>, v: ScanView) -> Seq<Seq<char>> {
    v.errors + scan::final_group_errors(v.group) + block_index_errors(entries, v) + state_index_errors(v)
}

/// All warnings of a file whose entries leave the scan in state `v`.
pub open spec fn all_warnings(v: ScanView) -> Seq<Seq<char>> {
    v.warnings + block_index_warnings(v) + state_index_warnings(v)
}

/// The result for a file that holds `entries`, where `failures` tells of each
/// entry with compressed data why it does not decompress.
pub open spec fn verdict(
    entries: Seq<EntryView>,
    failures: Seq<Option<Seq<char>>>,
) -> VerificationResultView {
    if entries.len() == 0 {
        unreadable("empty e2store file"@)
    } else if entries[0].header.typ != types::TYPE_VERSION {
        unreadable("first entry is not a version entry"@)
    } else {
        let v = scan::scanned(entries, failures, entries.len() as int);
        VerificationResultView {
            valid: all_errors(entries, v).len() == 0,
            format: match v.format {
                Some(f) => Some(f.text()),
                None => None,
            },
            block_count: v.block_count,
            state_present: v.state_pos is Some,
            errors: all_errors(entries, v),
            warnings: all_warnings(v),
        }
    }
}

/// Why the data of an entry does not decompress, if it is compressed data that
/// does not.
pub open spec fn decompression_failure(e: EntryView) -> Option<Seq<char>> {
    if typed::compressed_type(e.header.typ) {
        match era::payload_of(era::snappy_decoded(e.data)) {
            Ok(_) => None,
            Err(e) => Some(e.text()),
        }
    } else {
        None
    }
}

/// [`decompression_failure`] of each entry.
pub open spec fn decompression_failures(entries: Seq<EntryView>) -> Seq<Option<Seq<char>>> {
    Seq::new(entries.len(), |i: int| decompression_failure(entries[i]))
}

/// What [`verify_era`] makes of a file.
pub open spec fn verification_of(data: Seq<u8>) -> VerificationResultView {
    match e2store::all_entries_of(data) {
        Err(e) => unreadable("failed to read e2store reader: "@ + e.message),
        Ok(entries) => verdict(entries, decompression_failures(entries)),
    }
}

/// The views of optional texts.
pub open spec fn option_views(s: Seq<Option<String>>) -> Seq<Option<Seq<char>>> {
    Seq::new(s.len(), |i: int| model::option_view(s[i]))
}

fn unreadable_result(message: String) -> (r: VerificationResult)
    ensures
        r@ == unreadable(message@),
{
    let mut errors: Vec<String> = Vec::new();
    errors.push(message);
    let r = VerificationResult {
        valid: false,
        format: None,
        block_count: 0,
        state_present: false,
        errors,
        warnings: Vec::new(),
    };
    assert(r@ =~= unreadable(message@));
    r
}

/// Where each entry starts in the file, the version aside, and the size of the
/// file.
fn positions(entries: &Vec<Entry>) -> (r: (HashMap<u64, usize>, u64))
    requires
        e2store::file_bytes(model::views(entries@)).len() <= u64::MAX,
    ensures
        r.1 == e2store::file_bytes(model::views(entries@)).len(),
        locates(r.0@, model::views(entries@), entries@.len() as int),
{
    broadcast use vstd::std_specs::hash::group_hash_axioms;

    let ghost all = model::views(entries@);
    let mut map: HashMap<u64, usize> = HashMap::new();
    let mut pos: u64 = 0;
    let mut i: usize = 0;
    assert(all.take(0) =~= Seq::empty());
    while i < entries.len()
        invariant
            i <= entries@.len(),
            all == model::views(entries@),
            e2store::file_bytes(all).len() <= u64::MAX,
            pos == e2store::entry_pos(all, i as int),
            locates(map@, all, i as int),
        decreases entries@.len() - i,
    {
        proof {
            scan::lemma_entry_pos_step(all, i as int);
        }
        let ghost before = map@;
        if i > 0 {
            map.insert(pos, i);
        }
        proof {
            assert forall|at: u64| #[trigger] map@.contains_key(at) == (entry_at(all, i + 1, at)
                is Some) by {
                assert(before.contains_key(at) == (entry_at(all, i as int, at) is Some));
            }
            assert forall|at: u64| #[trigger] map@.contains_key(at) implies entry_at(all, i + 1, at)
                == Some(map@[at] as int) by {
                assert(before.contains_key(at) == (entry_at(all, i as int, at) is Some));
            }
        }
        pos = pos + 8 + entries[i].data.len() as u64;
        i = i + 1;
    }
    assert(all.take(i as int) =~= all);
    (map, pos)
}

/// Check the offset of one slot, and append what is wrong with it to `errors`.
fn check_slot(
    entries: &Vec<Entry>,
    at: &HashMap<u64, usize>,
    file_size: u64,
    expected: Option<[u8; 2]>,
    pos: u64,
    slot: u64,
    offset: i64,
    errors: &mut Vec<String>,
)
    requires
        file_size == e2store::file_bytes(model::views(entries@)).len(),
        locates(at@, model::views(entries@), entries@.len() as int),
    ensures
        model::views(final(errors)@) == model::views(old(errors)@) + slot_errors(
            model::views(entries@),
            expected,
            pos,
            slot,
            offset,
        ),
{
    broadcast use vstd::std_specs::hash::group_hash_axioms;

    let ghost all = model::views(entries@);
    let ghost before = model::views(errors@);
    let abs: u64 = bytes::wrapping_offset(pos, offset);
    if offset == 0 || abs == 0 {
        assert(before + Seq::empty() =~= before);
        return;
    }
    if abs >= file_size {
        let mut s = "block index slot ".to_owned();
        text::push_dec(&mut s, slot);
        s.append(": offset resolves to byte ");
        text::push_dec(&mut s, abs);
        s.append(", past file size ");
        text::push_dec(&mut s, file_size);
        scan::push_text(errors, s);
        return;
    }
    let typ: [u8; 2] = match expected {
        None => {
            assert(before + Seq::empty() =~= before);
            return;
        },
        Some(typ) => typ,
    };
    match at.get(&abs) {
        Some(k) => {
            let k: usize = *k;
            proof {
                assert(at@.contains_key(abs));
                scan::lemma_entry_at_range(all, all.len() as int, abs);
            }
            let actual: [u8; 2] = entries[k].header.typ;
            if !types::same_type(actual, typ) {
                let mut s = "block index slot ".to_owned();
                text::push_dec(&mut s, slot);
                s.append(": offset points to entry ");
                text::push_dec(&mut s, k as u64);
                s.append(" (type ");
                text::push_hex_byte(&mut s, actual[0]);
                text::push_hex_byte(&mut s, actual[1]);
                s.append("), expected ");
                text::push_hex_byte(&mut s, typ[0]);
                text::push_hex_byte(&mut s, typ[1]);
                scan::push_text(errors, s);
            } else {
                assert(before + Seq::empty() =~= before);
            }
        },
        None => {
            assert(!at@.contains_key(abs));
            let mut s = "block index slot ".to_owned();
            text::push_dec(&mut s, slot);
            s.append(": offset resolves to byte ");
            text::push_dec(&mut s, abs);
            s.append(", which does not align to any entry boundary");
            scan::push_text(errors, s);
        },
    }
}

/// How many offsets of an index at `pos` lead to an entry after the version.
fn count_indexed(offsets: &Vec<i64>, pos: u64) -> (n: usize)
    ensures
        n == indexed_count(offsets@, pos, offsets@.len() as int),
{
    let mut n: usize = 0;
    let mut i: usize = 0;
    while i < offsets.len()
        invariant
            i <= offsets@.len(),
            n <= i,
            n == indexed_count(offsets@, pos, i as int),
        decreases offsets@.len() - i,
    {
        if offsets[i] != 0 && bytes::wrapping_offset(pos, offsets[i]) != 0 {
            n = n + 1;
        }
        i = i + 1;
    }
    n
}

/// Check the block index, and append what is wrong with it.
fn check_block_index(
    entries: &Vec<Entry>,
    scan: &Scan,
    errors: &mut Vec<String>,
    warnings: &mut Vec<String>,
)
    requires
        e2store::file_bytes(model::views(entries@)).len() <= u64::MAX,
    ensures
        model::views(final(errors)@) == model::views(old(errors)@) + block_index_errors(
            model::views(entries@),
            scan@,
        ),
        model::views(final(warnings)@) == model::views(old(warnings)@) + block_index_warnings(
            scan@,
        ),
{
    let ghost all = model::views(entries@);
    let ghost old_errors = model::views(errors@);
    let ghost old_warnings = model::views(warnings@);
    assert(old_errors + Seq::empty() =~= old_errors);
    assert(old_warnings + Seq::empty() =~= old_warnings);
    let idx = match &scan.block_index {
        None => {
            scan::push_text(errors, "missing block index".to_owned());
            return;
        },
        Some(idx) => idx,
    };
    let pos: u64 = scan.block_index_pos;
    let len: usize = idx.offsets.len();
    let indexed: usize = count_indexed(&idx.offsets, pos);
    if indexed != scan.block_count {
        let mut s = "block index has ".to_owned();
        text::push_dec(&mut s, indexed as u64);
        s.append(" non-zero offsets, file has ");
        text::push_dec(&mut s, scan.block_count as u64);
        s.append(" block entries");
        scan::push_text(errors, s);
    }
    if idx.count != len as u64 {
        let mut s = "block index count field (".to_owned();
        text::push_dec(&mut s, idx.count);
        s.append(") does not match offset array length (");
        text::push_dec(&mut s, len as u64);
        s.append(")");
        scan::push_text(warnings, s);
    }
    let expected: Option<[u8; 2]> = match scan.format {
        Some(EraFormat::Era) => Some(types::TYPE_COMPRESSED_SIGNED_BEACON_BLOCK),
        Some(EraFormat::Era1) => Some(types::TYPE_COMPRESSED_HEADER),
        None => None,
    };
    let (at, file_size) = positions(entries);
    let ghost counted = model::views(errors@);
    let mut i: usize = 0;
    assert(counted + Seq::empty() =~= counted);
    while i < idx.offsets.len()
        invariant
            i <= idx.offsets@.len(),
            all == model::views(entries@),
            file_size == e2store::file_bytes(all).len(),
            locates(at@, all, entries@.len() as int),
            model::views(errors@) == counted + offset_errors(all, expected, pos, idx@, i as int),
        decreases idx.offsets@.len() - i,
    {
        let slot: u64 = bytes::wrapping_sum(idx.starting_slot, i as u64);
        let ghost before = model::views(errors@);
        check_slot(entries, &at, file_size, expected, pos, slot, idx.offsets[i], errors);
        proof {
            assert(model::views(errors@) =~= counted + (offset_errors(
                all,
                expected,
                pos,
                idx@,
                i as int,
            ) + slot_errors(all, expected, pos, slot, idx@.offsets[i as int])));
        }
        i = i + 1;
    }
    proof {
        assert(model::views(errors@) =~= old_errors + block_index_errors(all, scan@));
    }
}

/// Check the state index, and append what is wrong with it.
fn check_state_index(scan: &Scan, errors: &mut Vec<String>, warnings: &mut Vec<String>)
    ensures
        model::views(final(errors)@) == model::views(old(errors)@) + state_index_errors(scan@),
        model::views(final(warnings)@) == model::views(old(warnings)@) + state_index_warnings(
            scan@,
        ),
{
    let ghost old_errors = model::views(errors@);
    let ghost old_warnings = model::views(warnings@);
    assert(old_errors + Seq::empty() =~= old_errors);
    assert(old_warnings + Seq::empty() =~= old_warnings);
    match scan.state_pos {
        None => {
            if scan.state_index.is_some() {
                scan::push_text(
                    warnings,
                    "state index present but no beacon state entry found".to_owned(),
                );
            }
        },
        Some(state_pos) => match &scan.state_index {
            None => {
                scan::push_text(errors, "beacon state present but state index missing".to_owned());
            },
            Some(idx) => {
                if idx.offsets.len() == 0 {
                    scan::push_text(errors, "state index contains no offsets".to_owned());
                } else if idx.offsets[0] == 0 {
                    scan::push_text(
                        errors,
                        "state index offset is 0 (does not reference state)".to_owned(),
                    );
                } else {
                    let abs: u64 = bytes::wrapping_offset(scan.state_index_pos, idx.offsets[0]);
                    if abs != state_pos {
                        let mut s = "state index offset resolves to byte ".to_owned();
                        text::push_dec(&mut s, abs);
                        s.append(", expected ");
                        text::push_dec(&mut s, state_pos);
                        scan::push_text(errors, s);
                    }
                }
            },
        },
    }
}

/// Verify a file that holds `entries`, where `failures` tells of each entry
/// with compressed data why it does not decompress.
pub fn verify_decoded(entries: &Vec<Entry>, failures: &Vec<Option<String>>) -> (r:
    VerificationResult)
    requires
        failures@.len() == entries@.len(),
        e2store::file_bytes(model::views(entries@)).len() <= u64::MAX,
    ensures
        r@ == verdict(model::views(entries@), option_views(failures@)),
{
    let ghost all = model::views(entries@);
    let ghost why = option_views(failures@);
    if entries.len() == 0 {
        return unreadable_result("empty e2store file".to_owned());
    }
    if !entries[0].header.is_version() {
        return unreadable_result("first entry is not a version entry".to_owned());
    }
    let mut scan = Scan::new();
    let mut pos: u64 = 0;
    let mut i: usize = 0;
    assert(all.take(0) =~= Seq::empty());
    while i < entries.len()
        invariant
            i <= entries@.len(),
            failures@.len() == entries@.len(),
            all == model::views(entries@),
            why == option_views(failures@),
            e2store::file_bytes(all).len() <= u64::MAX,
            pos == e2store::entry_pos(all, i as int),
            scan@ == scan::scanned(all, why, i as int),
            scan.block_count <= i,
        decreases entries@.len() - i,
    {
        proof {
            scan::lemma_entry_pos_step(all, i as int);
        }
        if i > 0 {
            scan.take_entry(i, pos, &entries[i], &failures[i]);
        }
        pos = pos + 8 + entries[i].data.len() as u64;
        i = i + 1;
    }
    let ghost v = scan@;
    let mut errors: Vec<String> = Vec::new();
    let mut warnings: Vec<String> = Vec::new();
    std::mem::swap(&mut errors, &mut scan.errors);
    std::mem::swap(&mut warnings, &mut scan.warnings);
    scan::push_final_group(&mut errors, &scan.group);
    check_block_index(entries, &scan, &mut errors, &mut warnings);
    check_state_index(&scan, &mut errors, &mut warnings);
    let format = match scan.format {
        Some(f) => Some(f.to_string()),
        None => None,
    };
    assert(model::views(errors@) == all_errors(all, v));
    let r = VerificationResult {
        valid: errors.len() == 0,
        format,
        block_count: scan.block_count,
        state_present: scan.state_pos.is_some(),
        errors,
        warnings,
    };
    r
}

/// Comprehensive ERA/ERA1 file verification.
pub fn verify_era(reader: &[u8]) -> (r: VerificationResult)
    ensures
        r@ == verification_of(reader@),
{
    let entries = match E2StoreReader::new(reader).read_all() {
        Ok(entries) => entries,
        Err(e) => {
            return unreadable_result(
                "failed to read e2store reader: ".to_owned().concat(e.to_string().as_str()),
            );
        },
    };
    let ghost all = model::views(entries@);
    let mut failures: Vec<Option<String>> = Vec::new();
    let mut i: usize = 0;
    while i < entries.len()
        invariant
            i <= entries@.len(),
            all == model::views(entries@),
            failures@.len() == i,
            forall|k: int|
                0 <= k < i ==> model::option_view(#[trigger] failures@[k])
                    == decompression_failure(all[k]),
        decreases entries@.len() - i,
    {
        let failure = if typed::is_compressed(entries[i].header.typ) {
            match era::decompress_entry(entries[i].data.as_slice()) {
                Ok(_) => None,
                Err(e) => Some(e.to_string()),
            }
        } else {
            None
        };
        failures.push(failure);
        i = i + 1;
    }
    proof {
        assert(option_views(failures@) =~= decompression_failures(all));
        e2store::entries_cover_source(reader@);
        assert(reader@.len() == reader.len());
    }
    verify_decoded(&entries, &failures)
}

/// A file is valid if and only if verification found no error.
pub proof fn valid_without_errors(data: Seq<u8>)
    ensures
        verification_of(data).valid <==> verification_of(data).errors.len() == 0,
{
}

} // verus!
