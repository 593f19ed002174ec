//! Which block is found at a slot, and which state.

use vstd::prelude::*;

use crate::error;
use crate::error::{E2StoreErrorView, ErrorView, IoErrorView};
use crate::format::e2store;
use crate::format::e2store::{EntryView, Header};
use crate::format::era;
use crate::format::era::SlotIndexView;
use crate::format::era1;
use crate::format::era1::U256;
use crate::format::laws as layout;
use crate::format::types;
use crate::read::block::{BlockView, Era1BlockView};
use crate::read::laws;
use crate::read::laws::Era1Group;
use crate::read::random;
use crate::read::random::EraRandomReaderView;
use crate::read::typed;
use crate::read::typed::EraFormat;
use crate::text;

verus! {

/// From where an entry starts on, a file holds that entry and those after it.
pub proof fn entries_from(data: Seq<u8>, k: int)
    requires
        0 <= k <= e2store::stream_entries(data).len(),
    ensures
        ({
            let raw = e2store::stream_entries(data);
            let at = layout::place_of(raw, k) as int;
            &&& at <= data.len()
            &&& e2store::stream_entries(data.skip(at)) == raw.skip(k)
            &&& e2store::stream_failure(data.skip(at)) == e2store::stream_failure(data)
            &&& k < raw.len() ==> e2store::next_entry_of(data.skip(at)) == Ok::<
                Option<EntryView>,
                IoErrorView,
            >(Some(raw[k]))
            &&& k < raw.len() ==> e2store::after_entry(data.skip(at)) == data.skip(
                at + 8 + raw[k].data.len(),
            )
            &&& k < raw.len() ==> raw[k].wf()
        }),
    decreases k,
{
    let raw = e2store::stream_entries(data);
    if k == 0 {
        assert(data.skip(0) =~= data);
        assert(raw.skip(0) =~= raw);
    } else {
        entries_from(data, k - 1);
        let before = layout::place_of(raw, k - 1) as int;
        let at = layout::place_of(raw, k) as int;
        let s = data.skip(before);
        layout::entry_reading(s);
        e2store::lemma_entry_encoded(s);
        let t = e2store::after_entry(s);
        assert(t == data.skip(at));
        let more = e2store::stream_entries(t);
        assert(e2store::stream_entries(s) =~= seq![raw[k - 1]] + more);
        assert(raw.skip(k - 1).skip(1) =~= raw.skip(k));
        assert(raw.skip(k) =~= more);
    }
    if k < raw.len() {
        let s = data.skip(layout::place_of(raw, k) as int);
        assert(raw.skip(k)[0] == raw[k]);
        layout::entry_reading(s);
        e2store::lemma_entry_encoded(s);
        let at = layout::place_of(raw, k) as int;
        assert(s.skip(8 + raw[k].data.len() as int) =~= data.skip(at + 8 + raw[k].data.len()));
    }
}

/// Looking for a header of a type, from an entry on, finds the first entry of
/// that type.
proof fn lemma_header_from(data: Seq<u8>, typ: [u8; 2], i: int, k: int)
    requires
        e2store::stream_failure(data) is None || k < e2store::stream_entries(data).len(),
        0 <= i <= k <= e2store::stream_entries(data).len(),
        forall|j: int|
            i <= j < k ==> (#[trigger] e2store::stream_entries(data)[j]).header.typ != typ,
        k < e2store::stream_entries(data).len() ==> e2store::stream_entries(data)[k].header.typ
            == typ,
    ensures
        random::find_header(data, layout::place_of(e2store::stream_entries(data), i), typ) == Ok::<
            Option<nat>,
            ErrorView,
        >(
            if k < e2store::stream_entries(data).len() {
                Some(layout::place_of(e2store::stream_entries(data), k))
            } else {
                None
            },
        ),
    decreases k - i,
{
    let raw = e2store::stream_entries(data);
    let at = layout::place_of(raw, i);
    let s = data.skip(at as int);
    entries_from(data, i);
    layout::entry_reading(s);
    layout::header_scanning(s);
    if i < raw.len() {
        let e = raw[i];
        let h = e2store::next_header_of(s)->Ok_0->Some_0;
        assert(h.typ =~= e.header.typ);
        assert(layout::place_of(raw, i + 1) == at + 8 + h.length);
        if i < k {
            lemma_header_from(data, typ, i + 1, k);
        }
    } else {
        assert(raw.skip(i).len() == 0);
        assert(s.len() < 8);
    }
}

/// Whether the entry at `p` is the index of the blocks: the first block index,
/// or the first generic slot index of a file without a block index.
pub open spec fn index_place(raw: Seq<EntryView>, p: int) -> bool {
    &&& 0 <= p < raw.len()
    &&& if layout::has_code(raw[p].header.typ, 0x66, 0x32) {
        forall|j: int|
            0 <= j < p ==> !layout::has_code((#[trigger] raw[j]).header.typ, 0x66, 0x32)
    } else {
        &&& layout::has_code(raw[p].header.typ, 0x69, 0x32)
        &&& forall|j: int|
            0 <= j < p ==> !layout::has_code((#[trigger] raw[j]).header.typ, 0x69, 0x32)
        &&& forall|j: int|
            0 <= j < raw.len() ==> !layout::has_code((#[trigger] raw[j]).header.typ, 0x66, 0x32)
    }
}

proof fn lemma_codes(raw: Seq<EntryView>)
    ensures
        forall|j: int| 0 <= j < raw.len() ==> ((#[trigger] raw[j]).header.typ
            == types::TYPE_BLOCK_INDEX <==> layout::has_code(
            raw[j].header.typ,
            0x66,
            0x32,
        )) && (raw[j].header.typ == types::TYPE_SLOT_INDEX <==> layout::has_code(
            raw[j].header.typ,
            0x69,
            0x32,
        )) && (raw[j].header.typ == types::TYPE_COMPRESSED_BEACON_STATE
            <==> layout::has_code(raw[j].header.typ, 0x02, 0x00)),
{
    assert forall|j: int| 0 <= j < raw.len() implies ((#[trigger] raw[j]).header.typ
        == types::TYPE_BLOCK_INDEX <==> layout::has_code(
        raw[j].header.typ,
        0x66,
        0x32,
    )) && (raw[j].header.typ == types::TYPE_SLOT_INDEX <==> layout::has_code(
        raw[j].header.typ,
        0x69,
        0x32,
    )) && (raw[j].header.typ == types::TYPE_COMPRESSED_BEACON_STATE
        <==> layout::has_code(raw[j].header.typ, 0x02, 0x00)) by {
        layout::type_codes(raw[j].header.typ);
    }
}

/// Whether a file starts with a version and the entry at `p` is the index of its
/// blocks. What follows a block index may be cut short.
pub open spec fn usable(data: Seq<u8>, p: int) -> bool {
    let raw = e2store::stream_entries(data);
    &&& raw.len() > 0
    &&& layout::has_code(raw[0].header.typ, 0x65, 0x32)
    &&& index_place(raw, p)
    &&& e2store::stream_failure(data) is None || layout::has_code(raw[p].header.typ, 0x66, 0x32)
}

/// A file opens with the index of its blocks, if that can be decoded, and else
/// it does not open.
pub proof fn opens_with_index(data: Seq<u8>, p: int)
    requires
        data.len() <= u64::MAX,
        usable(data, p),
    ensures
        ({
            let raw = e2store::stream_entries(data);
            match era::slot_index_of(raw[p].data) {
                Ok(idx) => EraRandomReaderView::open(data) matches Ok(r) && r.data == data
                    && r.index == Some((layout::place_of(raw, p) as u64, idx)),
                Err(_) => EraRandomReaderView::open(data) is Err,
            }
        }),
{
    let raw = e2store::stream_entries(data);
    lemma_codes(raw);
    layout::type_codes(raw[0].header.typ);
    entries_from(data, p);
    entries_from(data, 0);
    assert(data.skip(0) =~= data);
    if layout::has_code(raw[p].header.typ, 0x66, 0x32) {
        lemma_header_from(data, types::TYPE_BLOCK_INDEX, 0, p);
    } else {
        lemma_header_from(data, types::TYPE_BLOCK_INDEX, 0, raw.len() as int);
        lemma_header_from(data, types::TYPE_SLOT_INDEX, 0, p);
    }
}

/// A file without an index opens too, but no slot can be looked up.
pub proof fn opens_without_index(data: Seq<u8>, slot: u64)
    requires
        e2store::all_entries_of(data) is Ok,
        forall|j: int|
            0 <= j < e2store::all_entries_of(data)->Ok_0.len() ==> !layout::has_code(
                (#[trigger] e2store::all_entries_of(data)->Ok_0[j]).header.typ,
                0x66,
                0x32,
            ) && !layout::has_code(e2store::all_entries_of(data)->Ok_0[j].header.typ, 0x69, 0x32),
    ensures
        EraRandomReaderView::open(data) matches Ok(r) && r.data == data && r.index is None
            && r.block_at(slot) == Err::<Option<BlockView>, ErrorView>(
            error::invalid_era_view("block index not found in file"@),
        ) && r.full_block_at(slot) == Err::<Option<Era1BlockView>, ErrorView>(
            error::invalid_era_view("block index not found in file"@),
        ),
{
    let raw = e2store::all_entries_of(data)->Ok_0;
    lemma_codes(raw);
    entries_from(data, 0);
    assert(data.skip(0) =~= data);
    lemma_header_from(data, types::TYPE_BLOCK_INDEX, 0, raw.len() as int);
    lemma_header_from(data, types::TYPE_SLOT_INDEX, 0, raw.len() as int);
}

/// A file that does not start with a version entry does not open, and neither
/// does one of less than eight bytes.
pub proof fn opens_after_version(data: Seq<u8>)
    ensures
        data.len() < 8 ==> EraRandomReaderView::open(data) is Err,
        data.len() >= 8 && !(data[0] == 0x65 && data[1] == 0x32) ==> EraRandomReaderView::open(
            data,
        ) is Err,
{
    layout::entry_reading(data);
    layout::type_codes(e2store::next_entry_of(data)->Ok_0->Some_0.header.typ);
}

/// Whether the offset of a slot leads from the index at `p` to the entry at `k`.
pub open spec fn leads_to(
    raw: Seq<EntryView>,
    p: int,
    idx: SlotIndexView,
    slot: u64,
    k: int,
) -> bool {
    &&& idx.starting_slot <= slot < idx.starting_slot + idx.offsets.len() <= u64::MAX
    &&& 0 <= k < raw.len()
    &&& idx.offsets[slot - idx.starting_slot] != 0
    &&& layout::place_of(raw, p) + idx.offsets[slot - idx.starting_slot] == layout::place_of(raw, k)
}

proof fn lemma_lookup(data: Seq<u8>, p: int, slot: u64, k: int)
    requires
        data.len() <= u64::MAX,
        usable(data, p),
        ({
            let raw = e2store::stream_entries(data);
            era::slot_index_of(raw[p].data) matches Ok(idx) && leads_to(raw, p, idx, slot, k)
        }),
    ensures
        ({
            let raw = e2store::stream_entries(data);
            let r = EraRandomReaderView::open(data)->Ok_0;
            &&& EraRandomReaderView::open(data) is Ok
            &&& r.data == data
            &&& random::lookup(r.index, slot) == Ok::<u64, random::SlotLookupError>(
                layout::place_of(raw, k) as u64,
            )
            &&& layout::place_of(raw, k) <= data.len()
            &&& random::bytes_from(data, layout::place_of(raw, k) as int) == data.skip(
                layout::place_of(raw, k) as int,
            )
        }),
{
    let raw = e2store::stream_entries(data);
    opens_with_index(data, p);
    entries_from(data, p);
    entries_from(data, k);
}

/// Reading a block by its slot gives the block whose entry the index leads to:
/// a beacon block decompressed; of an ERA1 block the header decompressed, and
/// nothing else. An entry of another type is no block.
pub proof fn block_found(data: Seq<u8>, p: int, slot: u64, k: int)
    requires
        data.len() <= u64::MAX,
        usable(data, p),
        ({
            let raw = e2store::stream_entries(data);
            era::slot_index_of(raw[p].data) matches Ok(idx) && leads_to(raw, p, idx, slot, k)
        }),
    ensures
        ({
            let e = e2store::stream_entries(data)[k];
            let typ = e.header.typ;
            let found = EraRandomReaderView::open(data)->Ok_0.block_at(slot);
            &&& EraRandomReaderView::open(data) is Ok
            &&& (layout::has_code(typ, 0x01, 0x00) || layout::has_code(typ, 0x03, 0x00)) ==> (found
                is Ok <==> era::snappy_decoded(e.data) is Ok)
            &&& layout::has_code(typ, 0x01, 0x00) && found is Ok ==> found->Ok_0 == Some(
                BlockView::Era(era::snappy_decoded(e.data)->Ok_0),
            )
            &&& layout::has_code(typ, 0x03, 0x00) && found is Ok ==> (found->Ok_0 matches Some(
                BlockView::Era1(b),
            ) && b.header == era::snappy_decoded(e.data)->Ok_0 && b.body.len() == 0
                && b.receipts.len() == 0 && forall|i: int|
                0 <= i < 32 ==> (#[trigger] b.total_difficulty.0@[i]) == 0)
            &&& !layout::has_code(typ, 0x01, 0x00) && !layout::has_code(typ, 0x03, 0x00) ==> found
                is Err
        }),
{
    lemma_lookup(data, p, slot, k);
    entries_from(data, k);
    let e = e2store::stream_entries(data)[k];
    layout::type_codes(e.header.typ);
}

/// Where the index leads to an entry that is no block, the error names the slot
/// and the type of the entry.
#[verifier::spinoff_prover]
pub proof fn other_entry_named(data: Seq<u8>, p: int, slot: u64, k: int)
    requires
        data.len() <= u64::MAX,
        usable(data, p),
        ({
            let raw = e2store::stream_entries(data);
            era::slot_index_of(raw[p].data) matches Ok(idx) && leads_to(raw, p, idx, slot, k)
        }),
    ensures
        ({
            let e = e2store::stream_entries(data)[k];
            let typ = e.header.typ;
            let r = EraRandomReaderView::open(data)->Ok_0;
            let code = text::hex_byte(typ[0]) + text::hex_byte(typ[1]);
            &&& EraRandomReaderView::open(data) is Ok
            &&& !layout::has_code(typ, 0x03, 0x00) ==> (r.full_block_at(slot) matches Err(
                ErrorView::E2Store(E2StoreErrorView::InvalidEra(message)),
            ) && message =~= "expected header entry at slot "@ + text::dec(slot as nat) + ", got "@
                + code)
            &&& layout::has_code(typ, 0x04, 0x00) ==> (r.block_at(slot) matches Err(
                ErrorView::E2Store(E2StoreErrorView::InvalidEra(message)),
            ) && message =~= "expected block entry at slot "@ + text::dec(slot as nat) + ", got "@
                + "BlockBody"@ + " ("@ + code + ")"@)
            &&& typ[1] == 0x00 && typ[0] > 0x07 && typ[0] != 0x33 ==> (r.block_at(slot) matches Err(
                ErrorView::E2Store(E2StoreErrorView::InvalidEra(message)),
            ) && message =~= "expected block entry at slot "@ + text::dec(slot as nat) + ", got "@
                + "Unknown"@ + " ("@ + code + ")"@)
        }),
{
    lemma_lookup(data, p, slot, k);
    entries_from(data, k);
    let e = e2store::stream_entries(data)[k];
    layout::type_codes(e.header.typ);
}

/// Where the index leads to the last seven bytes of the file or beyond, nothing
/// can be read.
pub proof fn nothing_past_end(data: Seq<u8>, p: int, slot: u64)
    requires
        data.len() <= u64::MAX,
        usable(data, p),
        ({
            let raw = e2store::stream_entries(data);
            let idx = era::slot_index_of(raw[p].data)->Ok_0;
            &&& era::slot_index_of(raw[p].data) is Ok
            &&& idx.starting_slot <= slot < idx.starting_slot + idx.offsets.len() <= u64::MAX
            &&& idx.offsets[slot - idx.starting_slot] != 0
            &&& data.len() < layout::place_of(raw, p) + idx.offsets[slot - idx.starting_slot] + 8
            &&& layout::place_of(raw, p) + idx.offsets[slot - idx.starting_slot] <= u64::MAX
        }),
    ensures
        EraRandomReaderView::open(data) matches Ok(r) && r.block_at(slot) == Err::<
            Option<BlockView>,
            ErrorView,
        >(error::invalid_era_view("unexpected EOF at indexed position"@)) && r.full_block_at(slot)
            == Err::<Option<Era1BlockView>, ErrorView>(
            error::invalid_era_view("unexpected EOF at indexed position"@),
        ),
{
    let raw = e2store::stream_entries(data);
    let idx = era::slot_index_of(raw[p].data)->Ok_0;
    opens_with_index(data, p);
    entries_from(data, p);
    let at = layout::place_of(raw, p) + idx.offsets[slot - idx.starting_slot];
    let rest = random::bytes_from(data, at);
    assert(at >= 0);
    assert(rest.len() < 8);
    layout::entry_reading(rest);
}

/// A slot whose offset is 0 was skipped, and holds no block. A slot outside the
/// index is an error that names the slots of the index.
pub proof fn slot_without_block(data: Seq<u8>, p: int, slot: u64)
    requires
        data.len() <= u64::MAX,
        usable(data, p),
        era::slot_index_of(e2store::stream_entries(data)[p].data) is Ok,
    ensures
        ({
            let raw = e2store::stream_entries(data);
            let idx = era::slot_index_of(raw[p].data)->Ok_0;
            let end = idx.starting_slot + idx.offsets.len();
            let r = EraRandomReaderView::open(data)->Ok_0;
            &&& EraRandomReaderView::open(data) is Ok
            &&& idx.starting_slot <= slot < end <= u64::MAX && idx.offsets[slot
                - idx.starting_slot] == 0 ==> r.block_at(slot) == Ok::<
                Option<BlockView>,
                ErrorView,
            >(None) && r.full_block_at(slot) == Ok::<Option<Era1BlockView>, ErrorView>(None)
            &&& end <= u64::MAX && (slot < idx.starting_slot || slot >= end) ==> r.block_at(slot)
                == Err::<Option<BlockView>, ErrorView>(
                error::invalid_era_view(
                    "slot "@ + text::dec(slot as nat) + " outside index range ["@ + text::dec(
                        idx.starting_slot as nat,
                    ) + ", "@ + text::dec(end as nat) + "]"@,
                ),
            ) && r.full_block_at(slot) is Err
        }),
{
    opens_with_index(data, p);
}

/// Where the parts of an ERA1 block that stand from `i` on end: before the first
/// entry that is no body, no receipts and no total difficulty.
pub open spec fn parts_end(raw: Seq<EntryView>, i: int) -> int
    decreases raw.len() - i,
{
    if 0 <= i < raw.len() && (layout::has_code(raw[i].header.typ, 0x04, 0x00) || layout::has_code(
        raw[i].header.typ,
        0x05,
        0x00,
    ) || layout::has_code(raw[i].header.typ, 0x06, 0x00)) {
        parts_end(raw, i + 1)
    } else {
        i
    }
}

/// The data of the last entry from `from` up to `to` whose type has the first
/// byte `code` and the second 0, and which has `len` bytes if `len` is given.
pub open spec fn last_data(
    raw: Seq<EntryView>,
    code: u8,
    len: Option<nat>,
    from: int,
    to: int,
) -> Option<Seq<u8>>
    decreases to - from,
{
    if to <= from {
        None
    } else {
        let e = raw[to - 1];
        if layout::has_code(e.header.typ, code, 0x00) && (len is None || e.data.len()
            == len->Some_0) {
            Some(e.data)
        } else {
            last_data(raw, code, len, from, to - 1)
        }
    }
}

/// The data of the first step of a run of entries counts unless a later one
/// replaces it.
proof fn lemma_last_first(raw: Seq<EntryView>, code: u8, len: Option<nat>, from: int, to: int)
    requires
        from < to,
    ensures
        ({
            let later = last_data(raw, code, len, from + 1, to);
            let e = raw[from];
            last_data(raw, code, len, from, to) == if later is Some {
                later
            } else if layout::has_code(e.header.typ, code, 0x00) && (len is None || e.data.len()
                == len->Some_0) {
                Some(e.data)
            } else {
                None
            }
        }),
    decreases to - from,
{
    if from + 1 < to {
        lemma_last_first(raw, code, len, from, to - 1);
    } else {
        assert(last_data(raw, code, len, from, from) is None);
    }
}

proof fn lemma_parts_end(raw: Seq<EntryView>, i: int)
    ensures
        parts_end(raw, i) >= i,
        0 <= i <= raw.len() ==> parts_end(raw, i) <= raw.len(),
    decreases raw.len() - i,
{
    if 0 <= i < raw.len() && (layout::has_code(raw[i].header.typ, 0x04, 0x00) || layout::has_code(
        raw[i].header.typ,
        0x05,
        0x00,
    ) || layout::has_code(raw[i].header.typ, 0x06, 0x00)) {
        lemma_parts_end(raw, i + 1);
    }
}

/// Completing a block from the entries from `i` on.
#[verifier::spinoff_prover]
#[verifier::rlimit(60)]
proof fn lemma_completed(data: Seq<u8>, i: int, b: Era1BlockView)
    requires
        0 <= i <= e2store::stream_entries(data).len(),
        e2store::stream_failure(data) is None || parts_end(e2store::stream_entries(data), i)
            < e2store::stream_entries(data).len(),
    ensures
        ({
            let raw = e2store::stream_entries(data);
            let end = parts_end(raw, i);
            let body = last_data(raw, 0x04, None, i, end);
            let receipts = last_data(raw, 0x05, None, i, end);
            let td = last_data(raw, 0x06, Some(32), i, end);
            let done = random::full_block(b, data.skip(layout::place_of(raw, i) as int));
            &&& done is Ok
            &&& done->Ok_0.header == b.header
            &&& done->Ok_0.body == if body is Some {
                body->Some_0
            } else {
                b.body
            }
            &&& done->Ok_0.receipts == if receipts is Some {
                receipts->Some_0
            } else {
                b.receipts
            }
            &&& done->Ok_0.total_difficulty.0@ == if td is Some {
                td->Some_0
            } else {
                b.total_difficulty.0@
            }
        }),
    decreases e2store::stream_entries(data).len() - i,
{
    let raw = e2store::stream_entries(data);
    let s = data.skip(layout::place_of(raw, i) as int);
    entries_from(data, i);
    lemma_parts_end(raw, i);
    let end = parts_end(raw, i);
    if i < raw.len() {
        let e = raw[i];
        layout::type_codes(e.header.typ);
        assert(layout::place_of(raw, i + 1) == layout::place_of(raw, i) + 8 + e.data.len());
        if end > i {
            lemma_parts_end(raw, i + 1);
            lemma_last_first(raw, 0x04, None, i, end);
            lemma_last_first(raw, 0x05, None, i, end);
            lemma_last_first(raw, 0x06, Some(32), i, end);
            let next = if layout::has_code(e.header.typ, 0x04, 0x00) {
                Era1BlockView { body: e.data, ..b }
            } else if layout::has_code(e.header.typ, 0x05, 0x00) {
                Era1BlockView { receipts: e.data, ..b }
            } else if e.data.len() == 32 {
                Era1BlockView { total_difficulty: U256(typed::word_of(e.data)), ..b }
            } else {
                b
            };
            if e.data.len() == 32 {
                laws::lemma_array(e.data);
            }
            lemma_completed(data, i + 1, next);
            assert(random::full_block(b, s) == random::full_block(
                next,
                data.skip(layout::place_of(raw, i + 1) as int),
            ));
        } else {
            assert(end == i);
            if layout::has_code(e.header.typ, 0x04, 0x00) || layout::has_code(
                e.header.typ,
                0x05,
                0x00,
            ) || layout::has_code(e.header.typ, 0x06, 0x00) {
                lemma_parts_end(raw, i + 1);
            }
            assert(random::full_block(b, s) == Ok::<Era1BlockView, ErrorView>(b));
        }
    } else {
        assert(end == i);
        assert(raw.skip(i).len() == 0);
        assert(random::full_block(b, s) == Ok::<Era1BlockView, ErrorView>(b));
    }
}

/// Reading a full ERA1 block by its slot gives the block whose header entry the
/// index leads to: the header decompressed, and the last body, receipts and
/// total difficulty among the entries that follow the header up to the first
/// of another type. What is missing is empty, or 0.
#[verifier::spinoff_prover]
pub proof fn full_block_found(data: Seq<u8>, p: int, slot: u64, k: int)
    requires
        data.len() <= u64::MAX,
        usable(data, p),
        ({
            let raw = e2store::stream_entries(data);
            &&& era::slot_index_of(raw[p].data) matches Ok(idx) && leads_to(raw, p, idx, slot, k)
            &&& e2store::stream_failure(data) is None || parts_end(raw, k + 1) < raw.len()
        }),
    ensures
        ({
            let raw = e2store::stream_entries(data);
            let end = parts_end(raw, k + 1);
            let body = last_data(raw, 0x04, None, k + 1, end);
            let receipts = last_data(raw, 0x05, None, k + 1, end);
            let td = last_data(raw, 0x06, Some(32), k + 1, end);
            let found = EraRandomReaderView::open(data)->Ok_0.full_block_at(slot);
            &&& EraRandomReaderView::open(data) is Ok
            &&& found is Ok <==> layout::has_code(raw[k].header.typ, 0x03, 0x00)
                && era::snappy_decoded(raw[k].data) is Ok
            &&& found is Ok ==> found->Ok_0 is Some && found->Ok_0->Some_0.header
                == era::snappy_decoded(raw[k].data)->Ok_0
            &&& found is Ok ==> found->Ok_0->Some_0.body == if body is Some {
                body->Some_0
            } else {
                Seq::empty()
            }
            &&& found is Ok ==> found->Ok_0->Some_0.receipts == if receipts is Some {
                receipts->Some_0
            } else {
                Seq::empty()
            }
            &&& found is Ok ==> found->Ok_0->Some_0.total_difficulty.0@ == if td is Some {
                td->Some_0
            } else {
                Seq::new(32, |i: int| 0u8)
            }
        }),
{
    let raw = e2store::stream_entries(data);
    lemma_lookup(data, p, slot, k);
    entries_from(data, k);
    layout::type_codes(raw[k].header.typ);
    let header = era::snappy_decoded(raw[k].data)->Ok_0;
    assert(layout::place_of(raw, k + 1) == layout::place_of(raw, k) + 8 + raw[k].data.len());
    lemma_completed(data, k + 1, random::header_only(header));
    assert(era1::zero_difficulty().0@ =~= Seq::new(32, |i: int| 0u8));
}

/// Completing a block from entries that are cut short.
proof fn lemma_cut(data: Seq<u8>, i: int, b: Era1BlockView)
    requires
        0 <= i <= e2store::stream_entries(data).len(),
        e2store::stream_failure(data) is Some,
        parts_end(e2store::stream_entries(data), i) == e2store::stream_entries(data).len(),
    ensures
        random::full_block(
            b,
            data.skip(layout::place_of(e2store::stream_entries(data), i) as int),
        ) == Err::<Era1BlockView, ErrorView>(
            ErrorView::Io(e2store::stream_failure(data)->Some_0),
        ),
    decreases e2store::stream_entries(data).len() - i,
{
    let raw = e2store::stream_entries(data);
    let s = data.skip(layout::place_of(raw, i) as int);
    entries_from(data, i);
    if i < raw.len() {
        let e = raw[i];
        layout::type_codes(e.header.typ);
        assert(layout::place_of(raw, i + 1) == layout::place_of(raw, i) + 8 + e.data.len());
        let next = if layout::has_code(e.header.typ, 0x04, 0x00) {
            Era1BlockView { body: e.data, ..b }
        } else if layout::has_code(e.header.typ, 0x05, 0x00) {
            Era1BlockView { receipts: e.data, ..b }
        } else if e.data.len() == 32 {
            Era1BlockView { total_difficulty: U256(typed::word_of(e.data)), ..b }
        } else {
            b
        };
        lemma_cut(data, i + 1, next);
    } else {
        assert(raw.skip(i).len() == 0);
    }
}

/// A full ERA1 block cannot be read if the file cannot be read to the end of its
/// parts.
pub proof fn cut_block_not_read(data: Seq<u8>, p: int, slot: u64, k: int)
    requires
        data.len() <= u64::MAX,
        usable(data, p),
        e2store::stream_failure(data) is Some,
        ({
            let raw = e2store::stream_entries(data);
            &&& era::slot_index_of(raw[p].data) matches Ok(idx) && leads_to(raw, p, idx, slot, k)
            &&& layout::has_code(raw[k].header.typ, 0x03, 0x00)
            &&& era::snappy_decoded(raw[k].data) is Ok
            &&& parts_end(raw, k + 1) == raw.len()
        }),
    ensures
        EraRandomReaderView::open(data) matches Ok(r) && r.full_block_at(slot) == Err::<
            Option<Era1BlockView>,
            ErrorView,
        >(ErrorView::Io(e2store::stream_failure(data)->Some_0)),
{
    let raw = e2store::stream_entries(data);
    lemma_lookup(data, p, slot, k);
    entries_from(data, k);
    layout::type_codes(raw[k].header.typ);
    let header = era::snappy_decoded(raw[k].data)->Ok_0;
    assert(layout::place_of(raw, k + 1) == layout::place_of(raw, k) + 8 + raw[k].data.len());
    lemma_cut(data, k + 1, random::header_only(header));
}

/// Reading the state gives the first state entry of the file, decompressed, or
/// nothing if there is none. If the file cannot be read so far, that is the
/// error.
pub proof fn state_found(data: Seq<u8>, k: int)
    requires
        EraRandomReaderView::open(data) is Ok,
        1 <= k <= e2store::stream_entries(data).len(),
        forall|j: int|
            1 <= j < k ==> !layout::has_code(
                (#[trigger] e2store::stream_entries(data)[j]).header.typ,
                0x02,
                0x00,
            ),
        k < e2store::stream_entries(data).len() ==> layout::has_code(
            e2store::stream_entries(data)[k].header.typ,
            0x02,
            0x00,
        ),
    ensures
        ({
            let raw = e2store::stream_entries(data);
            let state = EraRandomReaderView::open(data)->Ok_0.state();
            if k < raw.len() {
                match era::snappy_decoded(raw[k].data) {
                    Ok(s) => state == Ok::<Option<Seq<u8>>, ErrorView>(Some(s)),
                    Err(_) => state is Err,
                }
            } else {
                match e2store::stream_failure(data) {
                    None => state == Ok::<Option<Seq<u8>>, ErrorView>(None),
                    Some(e) => state == Err::<Option<Seq<u8>>, ErrorView>(ErrorView::Io(e)),
                }
            }
        }),
{
    let raw = e2store::stream_entries(data);
    lemma_codes(raw);
    entries_from(data, 0);
    assert(data.skip(0) =~= data);
    assert(layout::place_of(raw, 1) == 8 + raw[0].data.len()) by {
        assert(layout::place_of(raw, 0) == 0);
    }
    lemma_state_from(data, 1, k);
}

proof fn lemma_state_from(data: Seq<u8>, i: int, k: int)
    requires
        0 <= i <= k <= e2store::stream_entries(data).len(),
        forall|j: int|
            i <= j < k ==> (#[trigger] e2store::stream_entries(data)[j]).header.typ
                != types::TYPE_COMPRESSED_BEACON_STATE,
        k < e2store::stream_entries(data).len() ==> e2store::stream_entries(data)[k].header.typ
            == types::TYPE_COMPRESSED_BEACON_STATE,
    ensures
        random::find_state(
            data.skip(layout::place_of(e2store::stream_entries(data), i) as int),
        ) == (if k < e2store::stream_entries(data).len() {
            Ok::<Option<Seq<u8>>, ErrorView>(Some(e2store::stream_entries(data)[k].data))
        } else {
            match e2store::stream_failure(data) {
                None => Ok(None),
                Some(e) => Err(ErrorView::Io(e)),
            }
        }),
    decreases k - i,
{
    let raw = e2store::stream_entries(data);
    entries_from(data, i);
    if i < k {
        assert(layout::place_of(raw, i + 1) == layout::place_of(raw, i) + 8 + raw[i].data.len());
        lemma_state_from(data, i + 1, k);
    } else if i == raw.len() {
        assert(raw.skip(i).len() == 0);
    }
}

/// Which entry of an ERA1 file is the header of the block `k`: the blocks
/// before it take three entries each, or four with receipts.
pub open spec fn header_place(groups: Seq<Era1Group>, k: int) -> int
    decreases k,
{
    if k <= 0 {
        1
    } else {
        header_place(groups, k - 1) + if groups[k - 1].receipts is Some {
            4int
        } else {
            3
        }
    }
}

/// Where a group stands in an ERA1 file.
proof fn lemma_group_at(groups: Seq<Era1Group>, tail: Seq<EntryView>, k: int)
    requires
        0 <= k <= groups.len(),
    ensures
        1 <= header_place(groups, k) <= laws::era1_file(groups, tail).len(),
        laws::era1_file(groups, tail).skip(header_place(groups, k)) == laws::group_entries(
            groups,
            k,
        ) + tail,
    decreases k,
{
    let raw = laws::era1_file(groups, tail);
    if k == 0 {
        assert(raw.skip(1) =~= laws::group_entries(groups, 0) + tail);
    } else {
        lemma_group_at(groups, tail, k - 1);
        let at = header_place(groups, k - 1);
        let g = groups[k - 1];
        let front = seq![g.header_entry()] + g.parts();
        assert(front.len() == header_place(groups, k) - at);
        let rest = laws::group_entries(groups, k) + tail;
        assert(raw.skip(at) =~= front + rest);
        assert((front + rest).skip(front.len() as int) =~= rest);
        assert(raw.skip(at).skip(front.len() as int) =~= raw.skip(header_place(groups, k)));
    }
}

/// The entries of a group, where it stands.
#[verifier::spinoff_prover]
#[verifier::rlimit(60)]
proof fn lemma_group_entries_at(groups: Seq<Era1Group>, tail: Seq<EntryView>, k: int)
    requires
        0 <= k < groups.len(),
        tail.len() > 0,
    ensures
        ({
            let raw = laws::era1_file(groups, tail);
            let h = header_place(groups, k);
            let n = header_place(groups, k + 1);
            let g = groups[k];
            &&& 0 <= h && n < raw.len()
            &&& raw[h] == g.header_entry()
            &&& raw[h + 1] == e2store::entry_of(types::TYPE_COMPRESSED_BODY, g.body)
            &&& g.receipts matches Some(r) ==> raw[h + 2] == e2store::entry_of(
                types::TYPE_COMPRESSED_RECEIPTS,
                r,
            )
            &&& raw[n - 1] == e2store::entry_of(
                types::TYPE_TOTAL_DIFFICULTY,
                g.total_difficulty.0@,
            )
            &&& raw[n] == if k + 1 < groups.len() {
                groups[k + 1].header_entry()
            } else {
                tail[0]
            }
        }),
{
    let raw = laws::era1_file(groups, tail);
    let h = header_place(groups, k);
    let n = header_place(groups, k + 1);
    let g = groups[k];
    lemma_group_at(groups, tail, k);
    lemma_group_at(groups, tail, k + 1);
    let front = seq![g.header_entry()] + g.parts();
    let after = laws::group_entries(groups, k + 1);
    assert(raw.skip(h) == front + after + tail);
    assert(raw.skip(n) == after + tail);
    assert(raw.skip(n).len() > 0);
    assert(raw[h] == raw.skip(h)[0]);
    assert(raw[h + 1] == raw.skip(h)[1]);
    assert(raw[h + 2] == raw.skip(h)[2]);
    if g.receipts is Some {
        assert(raw[h + 3] == raw.skip(h)[3]);
    }
    assert(raw[n] == raw.skip(n)[0]);
}

/// The parts of a group, read one by one.
#[verifier::spinoff_prover]
proof fn lemma_group_run(raw: Seq<EntryView>, g: Era1Group, h: int, n: int)
    requires
        0 <= h,
        n < raw.len(),
        n == h + if g.receipts is Some {
            4int
        } else {
            3
        },
        layout::has_code(raw[h + 1].header.typ, 0x04, 0x00),
        raw[h + 1].data == g.body,
        g.receipts matches Some(r) ==> layout::has_code(raw[h + 2].header.typ, 0x05, 0x00) && raw[h
            + 2].data == r,
        layout::has_code(raw[n - 1].header.typ, 0x06, 0x00),
        raw[n - 1].data == g.total_difficulty.0@,
        !layout::has_code(raw[n].header.typ, 0x04, 0x00),
        !layout::has_code(raw[n].header.typ, 0x05, 0x00),
        !layout::has_code(raw[n].header.typ, 0x06, 0x00),
    ensures
        parts_end(raw, h + 1) == n,
        last_data(raw, 0x04, None, h + 1, n) == Some(g.body),
        last_data(raw, 0x05, None, h + 1, n) == g.receipts,
        last_data(raw, 0x06, Some(32), h + 1, n) == Some(g.total_difficulty.0@),
{
    reveal_with_fuel(parts_end, 5);
    reveal_with_fuel(last_data, 4);
    assert(g.total_difficulty.0@.len() == 32);
}

/// Reading a full ERA1 block by its slot, in a file of whole blocks whose index
/// leads to the header of the block `k`, gives that block: its header
/// decompressed, its body, its receipts and its total difficulty.
#[verifier::spinoff_prover]
#[verifier::rlimit(60)]
pub proof fn era1_block_found(
    groups: Seq<Era1Group>,
    tail: Seq<EntryView>,
    p: int,
    idx: SlotIndexView,
    slot: u64,
    k: int,
)
    requires
        forall|i: int| 0 <= i < groups.len() ==> (#[trigger] groups[i]).wf(),
        e2store::all_wf(tail),
        tail.len() > 0 && !layout::has_code(tail[0].header.typ, 0x04, 0x00) && !layout::has_code(
            tail[0].header.typ,
            0x05,
            0x00,
        ) && !layout::has_code(tail[0].header.typ, 0x06, 0x00),
        e2store::file_bytes(laws::era1_file(groups, tail)).len() <= u64::MAX,
        index_place(laws::era1_file(groups, tail), p),
        era::slot_index_of(laws::era1_file(groups, tail)[p].data) == Ok::<SlotIndexView, Seq<char>>(
            idx,
        ),
        0 <= k < groups.len(),
        leads_to(laws::era1_file(groups, tail), p, idx, slot, header_place(groups, k)),
    ensures
        ({
            let data = e2store::file_bytes(laws::era1_file(groups, tail));
            let found = EraRandomReaderView::open(data)->Ok_0.full_block_at(slot);
            let g = groups[k];
            &&& EraRandomReaderView::open(data) is Ok
            &&& found is Ok
            &&& found->Ok_0 is Some
            &&& Ok::<Seq<u8>, ErrorView>(found->Ok_0->Some_0.header) == era::payload_of(
                era::snappy_decoded(g.header),
            )
            &&& found->Ok_0->Some_0.body == g.body
            &&& g.receipts matches Some(r) ==> found->Ok_0->Some_0.receipts == r
            &&& g.receipts is None ==> found->Ok_0->Some_0.receipts.len() == 0
            &&& found->Ok_0->Some_0.total_difficulty.0@ == g.total_difficulty.0@
        }),
{
    let raw = laws::era1_file(groups, tail);
    let data = e2store::file_bytes(raw);
    let h = header_place(groups, k);
    let g = groups[k];
    laws::lemma_group_entries(groups, 0);
    assert(e2store::all_wf(raw));
    e2store::file_roundtrip(raw);
    lemma_group_entries_at(groups, tail, k);
    let n = header_place(groups, k + 1);
    layout::type_codes(raw[h].header.typ);
    layout::type_codes(raw[h + 1].header.typ);
    layout::type_codes(raw[h + 2].header.typ);
    layout::type_codes(raw[n - 1].header.typ);
    layout::type_codes(raw[n].header.typ);
    lemma_group_run(raw, g, h, n);
    full_block_found(data, p, slot, h);
}

/// The format of a file that is opened is told by the first header that is not
/// that of a version. If there is none, no format is told.
pub proof fn format_by_first_header(headers: Seq<Header>, k: int)
    requires
        0 <= k <= headers.len(),
        forall|i: int| 0 <= i < k ==> layout::has_code((#[trigger] headers[i]).typ, 0x65, 0x32),
        k < headers.len() ==> !layout::has_code(headers[k].typ, 0x65, 0x32),
    ensures
        random::format_of(headers) == if k < headers.len() {
            Some(
                if laws::tells_era(headers[k].typ) {
                    EraFormat::Era
                } else {
                    EraFormat::Era1
                },
            )
        } else {
            None
        },
    decreases k,
{
    if k > 0 {
        layout::type_codes(headers[0].typ);
        assert(layout::has_code(headers[0].typ, 0x65, 0x32));
        let rest = headers.skip(1);
        assert forall|i: int| 0 <= i < k - 1 implies layout::has_code(
            (#[trigger] rest[i]).typ,
            0x65,
            0x32,
        ) by {
            assert(rest[i] == headers[i + 1]);
        }
        format_by_first_header(rest, k - 1);
    } else if headers.len() > 0 {
        layout::type_codes(headers[0].typ);
    }
}

} // verus!
