//! What a reindexed or stripped file gives back.

use vstd::prelude::*;

use crate::bytes;
use crate::convert;
use crate::convert::reindex;
use crate::convert::split;
use crate::convert::strip::StripConfig;
use crate::error;
use crate::error::ErrorView;
use crate::format::e2store;
use crate::format::e2store::EntryView;
use crate::format::era;
use crate::format::era::SlotIndexView;
use crate::format::types;
use crate::fs::naming;
use crate::read::block::{BlockView, EraBlockReaderView};
use crate::read::random;
use crate::read::random::{EraRandomReaderView, SlotLookupError};
use crate::read::typed::EraFormat;
use crate::text;
use crate::verify;
use crate::verify::scan;
use crate::write::EraBuilderView;

verus! {

/// Whether no block after the block `k` has its slot.
pub open spec fn last_with_slot(slots: Seq<u64>, k: int) -> bool {
    forall|j: int| k < j < slots.len() ==> #[trigger] slots[j] != slots[k]
}

/// Whether no two blocks have the same slot.
pub open spec fn distinct(slots: Seq<u64>) -> bool {
    forall|i: int, j: int| 0 <= i < j < slots.len() ==> #[trigger] slots[i] != #[trigger] slots[j]
}

/// The slots that a file's blocks get.
pub open spec fn new_slots(data: Seq<u8>, config: StripConfig) -> Seq<u64> {
    reindex::assigned_slots(
        reindex::metadata_of(data)->Ok_0.0,
        reindex::block_total(reindex::content_of(data, config)),
    )
}

proof fn lemma_kept_members(entries: Seq<EntryView>, config: StripConfig)
    requires
        e2store::all_wf(entries),
    ensures
        e2store::all_wf(reindex::kept(entries, config)),
        forall|i: int|
            0 <= i < reindex::kept(entries, config).len() ==> !reindex::any_index_type(
                (#[trigger] reindex::kept(entries, config)[i]).header.typ,
            ) && config.keeps(reindex::kept(entries, config)[i].header.typ),
    decreases entries.len(),
{
    if entries.len() > 0 {
        let front = entries.drop_last();
        assert forall|i: int| 0 <= i < front.len() implies (#[trigger] front[i]).wf() by {
            assert(front[i] == entries[i]);
        }
        lemma_kept_members(front, config);
        let k = reindex::kept(entries, config);
        let f = reindex::kept(front, config);
        assert forall|i: int| 0 <= i < k.len() implies (#[trigger] k[i]).wf()
            && !reindex::any_index_type(k[i].header.typ) && config.keeps(k[i].header.typ) by {
            if i < f.len() {
                assert(k[i] == f[i]);
            }
        }
    }
}

/// What stays of a file: a version first, and then no index and nothing that
/// is stripped.
proof fn lemma_content(data: Seq<u8>, config: StripConfig)
    requires
        reindex::result_of(data) is Ok,
    ensures
        e2store::all_wf(reindex::content_of(data, config)),
        reindex::content_of(data, config).len() > 0,
        reindex::content_of(data, config)[0].header.typ == types::TYPE_VERSION,
        forall|i: int|
            1 <= i < reindex::content_of(data, config).len() ==> !reindex::any_index_type(
                (#[trigger] reindex::content_of(data, config)[i]).header.typ,
            ) && config.keeps(reindex::content_of(data, config)[i].header.typ),
{
    let entries = e2store::stream_entries(data);
    let content = reindex::content_of(data, config);
    e2store::entries_cover_source(data);
    let rest = entries.skip(1);
    assert forall|i: int| 0 <= i < rest.len() implies (#[trigger] rest[i]).wf() by {
        assert(rest[i] == entries[i + 1]);
    }
    lemma_kept_members(rest, config);
    assert forall|i: int| 0 <= i < content.len() implies (#[trigger] content[i]).wf() by {
        if i > 0 {
            assert(content[i] == reindex::kept(rest, config)[i - 1]);
        }
    }
    assert forall|i: int| 1 <= i < content.len() implies !reindex::any_index_type(
        (#[trigger] content[i]).header.typ,
    ) && config.keeps(content[i].header.typ) by {
        assert(content[i] == reindex::kept(rest, config)[i - 1]);
    }
}

/// Where the k-th block of `content` is.
proof fn lemma_place(content: Seq<EntryView>, k: int) -> (i: int)
    requires
        0 <= k < reindex::block_total(content),
    ensures
        0 <= i < content.len(),
        reindex::block_entry_type(content[i].header.typ),
        reindex::block_places(content).len() == reindex::block_total(content),
        reindex::block_places(content)[k] == e2store::entry_pos(content, i),
        reindex::block_total(content.take(i)) == k,
    decreases content.len(),
{
    let front = content.drop_last();
    reindex::lemma_places_len(content);
    reindex::lemma_places_len(front);
    if k < reindex::block_total(front) {
        let i = lemma_place(front, k);
        assert(front.take(i) =~= content.take(i));
        i
    } else {
        assert(content.take(content.len() - 1) =~= front);
        content.len() - 1
    }
}

/// The offset for the slot of a block leads to it, if no later block has the
/// slot.
proof fn lemma_offset_for(
    slots: Seq<u64>,
    places: Seq<nat>,
    index_pos: int,
    k: int,
    n: int,
)
    requires
        0 <= k < n <= slots.len(),
        last_with_slot(slots, k),
    ensures
        reindex::offset_for(slots, places, index_pos, slots[k] as int, n)
            == crate::write::offset_from(index_pos, places[k] as int),
    decreases n,
{
    if k < n - 1 {
        assert(slots[n - 1] != slots[k]);
        lemma_offset_for(slots, places, index_pos, k, n - 1);
    }
}

/// The number of blocks that can be indexed by one entry is small.
proof fn lemma_rebuilt_wf(content: Seq<EntryView>, slots: Seq<u64>, state_slot: Option<u64>)
    requires
        e2store::all_wf(content),
        reindex::indexable(reindex::assigned_slots(slots, reindex::block_total(content))),
    ensures
        e2store::all_wf(reindex::with_indexes(content, slots, state_slot)),
{
    let idx = reindex::rebuilt_block_index(content, slots);
    era::lemma_index_len(idx);
    let entries = reindex::with_block_index(content, slots);
    assert forall|i: int| 0 <= i < entries.len() implies (#[trigger] entries[i]).wf() by {
        if i < content.len() {
            assert(entries[i] == content[i]);
        }
    }
    match reindex::state_place(content) {
        None => {},
        Some(place) => {
            let slot = match state_slot {
                Some(slot) => slot,
                None => 0,
            };
            era::lemma_index_len(reindex::rebuilt_state_index(entries, slot, place));
            let all = reindex::with_indexes(content, slots, state_slot);
            assert forall|i: int| 0 <= i < all.len() implies (#[trigger] all[i]).wf() by {
                if i < entries.len() {
                    assert(all[i] == entries[i]);
                }
            }
        },
    }
}

pub proof fn lemma_written_wf(data: Seq<u8>, config: StripConfig)
    requires
        reindex::result_of(data) is Ok,
        reindex::reindexable(data),
    ensures
        e2store::all_wf(reindex::entries_written(data, config)),
        reindex::indexable(new_slots(data, config)),
{
    let content = reindex::content_of(data, config);
    let entries = e2store::stream_entries(data);
    let (slots, state_slot) = reindex::metadata_of(data)->Ok_0;
    lemma_content(data, config);
    reindex::lemma_kept_blocks(entries.skip(1), config);
    reindex::lemma_version_blocks(entries[0], reindex::kept(entries.skip(1), config));
    lemma_rebuilt_wf(content, slots, state_slot);
}

/// A reindexed or stripped file can be read back: it holds the entries that
/// were written.
pub proof fn reindexed_file_reads(data: Seq<u8>, config: StripConfig)
    requires
        reindex::result_of(data) is Ok,
        reindex::reindexable(data),
    ensures
        e2store::stream_entries(reindex::output_of(data, config)) == reindex::entries_written(
            data,
            config,
        ),
        e2store::stream_failure(reindex::output_of(data, config)) is None,
{
    lemma_written_wf(data, config);
    e2store::entries_read_back(reindex::entries_written(data, config));
}

/// Reindexing and stripping leave the other entries alone: what a file holds
/// apart from indexes is what the file it was made from holds, without what is
/// stripped, in the same order.
pub proof fn reindexing_keeps_content(data: Seq<u8>, config: StripConfig)
    requires
        reindex::result_of(data) is Ok,
        reindex::reindexable(data),
    ensures
        reindex::content_of(reindex::output_of(data, config), StripConfig::nothing())
            == reindex::content_of(data, config),
{
    types::lemma_type_codes();
    reindexed_file_reads(data, config);
    lemma_content(data, config);
    let content = reindex::content_of(data, config);
    let all = reindex::entries_written(data, config);
    let none = StripConfig::nothing();
    let indexed = reindex::with_block_index(content, reindex::metadata_of(data)->Ok_0.0);
    let rest = content.skip(1);
    assert forall|i: int| 0 <= i < rest.len() implies !reindex::any_index_type(
        (#[trigger] rest[i]).header.typ,
    ) by {
        assert(rest[i] == content[i + 1]);
    }
    lemma_kept_all(rest);
    assert(indexed.skip(1).drop_last() =~= rest);
    assert(reindex::kept(indexed.skip(1), none) == rest);
    if all.len() > indexed.len() {
        assert(all.skip(1).drop_last() =~= indexed.skip(1));
    } else {
        assert(all =~= indexed);
    }
    assert(reindex::kept(all.skip(1), none) == rest);
    assert(seq![content[0]] + rest =~= content);
}

proof fn lemma_kept_all(entries: Seq<EntryView>)
    requires
        forall|i: int|
            0 <= i < entries.len() ==> !reindex::any_index_type((#[trigger] entries[i]).header.typ),
    ensures
        reindex::kept(entries, StripConfig::nothing()) == entries,
    decreases entries.len(),
{
    if entries.len() > 0 {
        lemma_kept_all(entries.drop_last());
        assert(entries.drop_last().push(entries.last()) =~= entries);
    }
}

/// Nothing of a stripped type is left in a stripped file, whose only indexes
/// are the new ones at its end.
pub proof fn stripped_entries_gone(data: Seq<u8>, config: StripConfig, i: int)
    requires
        reindex::result_of(data) is Ok,
        reindex::reindexable(data),
        1 <= i < e2store::stream_entries(reindex::output_of(data, config)).len(),
    ensures
        ({
            let typ = e2store::stream_entries(reindex::output_of(data, config))[i].header.typ;
            &&& config.keeps(typ)
            &&& i < reindex::content_of(data, config).len() <==> !reindex::any_index_type(typ)
        }),
{
    types::lemma_type_codes();
    reindexed_file_reads(data, config);
    lemma_content(data, config);
    let content = reindex::content_of(data, config);
    let all = reindex::entries_written(data, config);
    if i < content.len() {
        assert(all[i] == content[i]);
    }
}

/// A reindexed or stripped file can be opened, and its block index is the new
/// one.
pub proof fn reindexed_file_opens(data: Seq<u8>, config: StripConfig)
    requires
        reindex::result_of(data) is Ok,
        reindex::reindexable(data),
        reindex::output_of(data, config).len() <= u64::MAX,
    ensures
        EraRandomReaderView::open(reindex::output_of(data, config)) matches Ok(r) && r.data
            == reindex::output_of(data, config) && r.index == Some(
            (
                e2store::file_bytes(reindex::content_of(data, config)).len() as u64,
                reindex::rebuilt_block_index(
                    reindex::content_of(data, config),
                    reindex::metadata_of(data)->Ok_0.0,
                ),
            ),
        ),
{
    types::lemma_type_codes();
    lemma_written_wf(data, config);
    lemma_content(data, config);
    let all = reindex::entries_written(data, config);
    let content = reindex::content_of(data, config);
    let n = content.len() as int;
    let slots = reindex::metadata_of(data)->Ok_0.0;
    crate::write::laws::entry_found(all, 0);
    assert(all.skip(0) =~= all);
    assert(all.take(0) =~= Seq::empty());
    assert(all[0] == content[0]);
    assert forall|j: int| 0 <= j < n implies (#[trigger] all[j]).header.typ
        != types::TYPE_BLOCK_INDEX by {
        assert(all[j] == content[j]);
    }
    crate::write::laws::block_index_counts(all, n);
    era::slot_index_roundtrip(reindex::rebuilt_block_index(content, slots));
    assert(all.take(n) =~= content);
}

/// The data of the first state among `entries`.
spec fn first_state(entries: Seq<EntryView>) -> Option<Seq<u8>>
    decreases entries.len(),
{
    if entries.len() == 0 {
        None
    } else {
        match first_state(entries.drop_last()) {
            Some(data) => Some(data),
            None => if entries.last().header.typ == types::TYPE_COMPRESSED_BEACON_STATE {
                Some(entries.last().data)
            } else {
                None
            },
        }
    }
}

proof fn lemma_first_state_cons(e: EntryView, rest: Seq<EntryView>)
    ensures
        first_state(seq![e] + rest) == if e.header.typ == types::TYPE_COMPRESSED_BEACON_STATE {
            Some(e.data)
        } else {
            first_state(rest)
        },
    decreases rest.len(),
{
    let all = seq![e] + rest;
    if rest.len() == 0 {
        assert(all.drop_last() =~= Seq::empty());
        assert(all.last() == e);
        assert(first_state(all.drop_last()) is None);
        assert(first_state(rest) is None);
    } else {
        assert(all.drop_last() =~= seq![e] + rest.drop_last());
        assert(all.last() == rest.last());
        lemma_first_state_cons(e, rest.drop_last());
    }
}

/// Looking for the state finds the first one.
proof fn lemma_find_state(s: Seq<u8>)
    requires
        e2store::stream_failure(s) is None,
    ensures
        random::find_state(s) == Ok::<Option<Seq<u8>>, ErrorView>(
            first_state(e2store::stream_entries(s)),
        ),
    decreases s.len(),
{
    match e2store::next_entry_of(s) {
        Ok(Some(e)) => {
            let rest = e2store::after_entry(s);
            lemma_first_state_cons(e, e2store::stream_entries(rest));
            lemma_find_state(rest);
        },
        _ => {},
    }
}

/// The first state of a file stays the first, or goes if states are stripped.
proof fn lemma_kept_state(entries: Seq<EntryView>, config: StripConfig)
    ensures
        first_state(reindex::kept(entries, config)) == if config.state {
            None
        } else {
            first_state(entries)
        },
    decreases entries.len(),
{
    types::lemma_type_codes();
    if entries.len() > 0 {
        lemma_kept_state(entries.drop_last(), config);
        let front = reindex::kept(entries.drop_last(), config);
        assert(front.push(entries.last()).drop_last() =~= front);
    }
}

/// New indexes hold no state.
proof fn lemma_indexed_state(content: Seq<EntryView>, slots: Seq<u64>, state_slot: Option<u64>)
    ensures
        first_state(reindex::with_indexes(content, slots, state_slot)) == first_state(content),
{
    types::lemma_type_codes();
    let indexed = reindex::with_block_index(content, slots);
    assert(indexed.drop_last() =~= content);
    assert(indexed.last().header.typ == types::TYPE_BLOCK_INDEX);
    assert(first_state(indexed) == first_state(content));
    let all = reindex::with_indexes(content, slots, state_slot);
    if reindex::state_place(content) is Some {
        assert(all.drop_last() =~= indexed);
        assert(all.last().header.typ == types::TYPE_STATE_INDEX);
    }
}

/// Reading the state of a reindexed file gives the state of the file it was
/// made from, and nothing if states are stripped.
pub proof fn reindexed_state_found(data: Seq<u8>, config: StripConfig)
    requires
        reindex::result_of(data) is Ok,
        reindex::reindexable(data),
        reindex::output_of(data, config).len() <= u64::MAX,
    ensures
        EraRandomReaderView::open(reindex::output_of(data, config)) matches Ok(r) && r.state() == (
        if config.state {
            Ok::<Option<Seq<u8>>, ErrorView>(None)
        } else {
            (EraRandomReaderView { data, ..r }).state()
        }),
{
    types::lemma_type_codes();
    reindexed_file_opens(data, config);
    reindexed_file_reads(data, config);
    let output = reindex::output_of(data, config);
    let old_rest = e2store::after_entry(data);
    let new_rest = e2store::after_entry(output);
    let old_entries = e2store::stream_entries(data);
    let new_entries = e2store::stream_entries(output);
    let content = reindex::content_of(data, config);
    let (slots, state_slot) = reindex::metadata_of(data)->Ok_0;
    lemma_find_state(old_rest);
    lemma_find_state(new_rest);
    assert(old_entries == seq![old_entries[0]] + e2store::stream_entries(old_rest));
    assert(new_entries == seq![new_entries[0]] + e2store::stream_entries(new_rest));
    lemma_first_state_cons(new_entries[0], e2store::stream_entries(new_rest));
    lemma_indexed_state(content, slots, state_slot);
    assert(old_entries.skip(1) =~= e2store::stream_entries(old_rest));
    assert(content == seq![old_entries[0]] + reindex::kept(old_entries.skip(1), config));
    lemma_first_state_cons(old_entries[0], reindex::kept(old_entries.skip(1), config));
    lemma_kept_state(old_entries.skip(1), config);
}

/// The new index leads from the slot of each block to its entry; of several
/// blocks with one slot, to the last. The highest slot number there is cannot
/// be looked up.
pub proof fn reindexed_block_found(data: Seq<u8>, config: StripConfig, k: int) -> (i: int)
    requires
        reindex::result_of(data) is Ok,
        reindex::reindexable(data),
        reindex::output_of(data, config).len() <= u64::MAX,
        0 <= k < new_slots(data, config).len(),
        last_with_slot(new_slots(data, config), k),
        new_slots(data, config).last() < u64::MAX,
    ensures
        0 <= i < reindex::content_of(data, config).len(),
        reindex::block_entry_type(reindex::content_of(data, config)[i].header.typ),
        reindex::block_total(reindex::content_of(data, config).take(i)) == k,
        EraRandomReaderView::open(reindex::output_of(data, config)) matches Ok(r) && (
        random::lookup(r.index, new_slots(data, config)[k]) matches Ok(pos)
            && e2store::next_entry_of(random::bytes_from(r.data, pos as int)) == Ok::<
            Option<EntryView>,
            error::IoErrorView,
        >(Some(reindex::content_of(data, config)[i]))),
{
    reindexed_file_opens(data, config);
    lemma_written_wf(data, config);
    let all = reindex::entries_written(data, config);
    let content = reindex::content_of(data, config);
    let n = content.len() as int;
    let i = lemma_place(content, k);
    assert(content.take(i) =~= all.take(i));
    assert(all.take(n) =~= content);
    crate::write::laws::entry_found(all, i);
    crate::write::laws::entry_found(all, n);
    lemma_rebuilt_lookup(content, reindex::metadata_of(data)->Ok_0.0, k);
    assert(all[i] == content[i]);
    i
}

/// The new index leads from the slot of a block to where it starts.
proof fn lemma_rebuilt_lookup(content: Seq<EntryView>, old_slots: Seq<u64>, k: int)
    requires
        ({
            let slots = reindex::assigned_slots(old_slots, reindex::block_total(content));
            &&& reindex::indexable(slots)
            &&& 0 <= k < slots.len()
            &&& last_with_slot(slots, k)
            &&& slots.last() < u64::MAX
        }),
        e2store::file_bytes(content).len() <= u64::MAX,
    ensures
        random::lookup(
            Some(
                (
                    e2store::file_bytes(content).len() as u64,
                    reindex::rebuilt_block_index(content, old_slots),
                ),
            ),
            reindex::assigned_slots(old_slots, reindex::block_total(content))[k],
        ) == Ok::<u64, SlotLookupError>(reindex::block_places(content)[k] as u64),
        reindex::block_places(content)[k] < e2store::file_bytes(content).len(),
{
    let slots = reindex::assigned_slots(old_slots, reindex::block_total(content));
    let places = reindex::block_places(content);
    let index_pos = e2store::file_bytes(content).len();
    let i = lemma_place(content, k);
    assert(content.take(content.len() as int) =~= content);
    crate::write::laws::lemma_pos_order(content, i, content.len() as int);
    lemma_offset_for(slots, places, index_pos as int, k, slots.len() as int);
    crate::write::laws::offset_leads_back(index_pos as int, places[k] as int);
    let idx = reindex::rebuilt_block_index(content, old_slots);
    let at = slots[k] - slots[0];
    assert(slots[0] + at == slots[k]);
    assert(idx.offsets[at] == crate::write::offset_from(index_pos as int, places[k] as int));
}

/// Whether slots are in ascending order.
pub open spec fn ascending(slots: Seq<u64>) -> bool {
    forall|i: int, j: int| 0 <= i < j < slots.len() ==> #[trigger] slots[i] < #[trigger] slots[j]
}

pub proof fn lemma_no_offset(slots: Seq<u64>, places: Seq<nat>, index_pos: int, slot: int, n: int)
    requires
        0 <= n <= slots.len(),
        forall|i: int| 0 <= i < n ==> #[trigger] slots[i] != slot,
    ensures
        reindex::offset_for(slots, places, index_pos, slot, n) == 0,
    decreases n,
{
    if n > 0 {
        lemma_no_offset(slots, places, index_pos, slot, n - 1);
    }
}

/// The first `n` offsets of an index of blocks in ascending order give back
/// the slots below.
proof fn lemma_used_slots(slots: Seq<u64>, places: Seq<nat>, index_pos: int, n: int) -> (j: int)
    requires
        slots.len() > 0,
        ascending(slots),
        places.len() == slots.len(),
        forall|i: int| 0 <= i < places.len() ==> #[trigger] places[i] < index_pos,
        0 < index_pos <= u64::MAX,
        0 <= n <= slots.last() - slots[0] + 1,
    ensures
        0 <= j <= slots.len(),
        reindex::used_slot_list(reindex::index_of_blocks(slots, places, index_pos), n)
            == slots.take(j),
        forall|i: int| 0 <= i < j ==> #[trigger] slots[i] < slots[0] + n,
        forall|i: int| j <= i < slots.len() ==> #[trigger] slots[i] >= slots[0] + n,
    decreases n,
{
    let idx = reindex::index_of_blocks(slots, places, index_pos);
    if n == 0 {
        assert(slots.take(0) =~= Seq::empty());
        assert forall|i: int| 0 <= i < slots.len() implies #[trigger] slots[i] >= slots[0] by {
            if i > 0 {
                assert(slots[0] < slots[i]);
            }
        }
        0
    } else {
        let j = lemma_used_slots(slots, places, index_pos, n - 1);
        let slot = slots[0] + (n - 1);
        assert(slot <= slots.last());
        assert(idx.offsets[n - 1] == reindex::offset_for(
            slots,
            places,
            index_pos,
            slot,
            slots.len() as int,
        ));
        if j < slots.len() && slots[j] == slot {
            assert(distinct(slots)) by {
                assert forall|a: int, b: int| 0 <= a < b < slots.len() implies #[trigger] slots[a]
                    != #[trigger] slots[b] by {
                    assert(slots[a] < slots[b]);
                }
            }
            lemma_offset_for(slots, places, index_pos, j, slots.len() as int);
            crate::write::laws::offset_leads_back(index_pos, places[j] as int);
            assert(slots.take(j + 1) =~= slots.take(j).push(slots[j]));
            assert forall|i: int| j + 1 <= i < slots.len() implies #[trigger] slots[i] >= slots[0]
                + n by {
                assert(slots[j] < slots[i]);
            }
            j + 1
        } else {
            assert forall|i: int| 0 <= i < slots.len() implies #[trigger] slots[i] != slot by {
                if i >= j {
                    assert(slots[i] >= slot);
                    if j < i {
                        assert(slots[j] < slots[i]);
                    }
                }
            }
            lemma_no_offset(slots, places, index_pos, slot, slots.len() as int);
            j
        }
    }
}

/// An index of blocks in ascending order gives back their slots.
proof fn lemma_slots_back(slots: Seq<u64>, places: Seq<nat>, index_pos: int)
    requires
        ascending(slots),
        places.len() == slots.len(),
        forall|i: int| 0 <= i < places.len() ==> #[trigger] places[i] < index_pos,
        0 < index_pos <= u64::MAX,
    ensures
        reindex::slots_of(reindex::index_of_blocks(slots, places, index_pos)) == slots,
{
    if slots.len() > 0 {
        let n = slots.last() - slots[0] + 1;
        assert(slots[0] <= slots.last()) by {
            if slots.len() > 1 {
                assert(slots[0] < slots[slots.len() - 1]);
            }
        }
        let j = lemma_used_slots(slots, places, index_pos, n);
        if j < slots.len() {
            assert(slots[slots.len() - 1] >= slots[0] + n);
        }
        assert(slots.take(j) =~= slots);
    } else {
        assert(reindex::slots_of(reindex::index_of_blocks(slots, places, index_pos)) =~= slots);
    }
}

/// Entries that are no indexes do not change where the indexes are.
proof fn lemma_places_pass(entries: Seq<EntryView>, i: int, k: int, before: reindex::IndexPlaces)
    requires
        e2store::all_wf(entries),
        0 <= i <= k <= entries.len(),
        e2store::file_bytes(entries).len() <= u64::MAX,
        forall|j: int|
            i <= j < k ==> !reindex::any_index_type((#[trigger] entries[j]).header.typ),
    ensures
        reindex::index_places(e2store::file_bytes(entries), e2store::entry_pos(entries, i), before)
            == reindex::index_places(
            e2store::file_bytes(entries),
            e2store::entry_pos(entries, k),
            before,
        ),
    decreases k - i,
{
    if i < k {
        crate::write::laws::entry_found(entries, i);
        crate::verify::scan::lemma_entry_pos_step(entries, i);
        lemma_places_pass(entries, i + 1, k, before);
    }
}

/// An entry that is an index.
proof fn lemma_places_step(entries: Seq<EntryView>, i: int, before: reindex::IndexPlaces)
    requires
        e2store::all_wf(entries),
        0 <= i < entries.len(),
        e2store::file_bytes(entries).len() <= u64::MAX,
    ensures
        reindex::index_places(e2store::file_bytes(entries), e2store::entry_pos(entries, i), before)
            == reindex::index_places(
            e2store::file_bytes(entries),
            e2store::entry_pos(entries, i + 1),
            before.with(entries[i].header.typ, e2store::entry_pos(entries, i) as u64),
        ),
{
    crate::write::laws::entry_found(entries, i);
    crate::verify::scan::lemma_entry_pos_step(entries, i);
}

/// At the end no more indexes are found.
proof fn lemma_places_end(entries: Seq<EntryView>, before: reindex::IndexPlaces)
    ensures
        reindex::index_places(
            e2store::file_bytes(entries),
            e2store::entry_pos(entries, entries.len() as int),
            before,
        ) == Ok::<reindex::IndexPlaces, ErrorView>(before),
{
    assert(entries.take(entries.len() as int) =~= entries);
    let data = e2store::file_bytes(entries);
    assert(random::bytes_from(data, data.len() as int) =~= Seq::empty());
}

/// Whether `content` starts with a version and holds no indexes.
spec fn plain(content: Seq<EntryView>) -> bool {
    &&& e2store::all_wf(content)
    &&& content.len() > 0
    &&& content[0].header.typ == types::TYPE_VERSION
    &&& forall|i: int|
        1 <= i < content.len() ==> !reindex::any_index_type((#[trigger] content[i]).header.typ)
}

/// Where the indexes of a rebuilt file are.
proof fn lemma_rebuilt_places(
    content: Seq<EntryView>,
    old_slots: Seq<u64>,
    state_slot: Option<u64>,
)
    requires
        plain(content),
        reindex::indexable(reindex::assigned_slots(old_slots, reindex::block_total(content))),
        e2store::file_bytes(reindex::with_indexes(content, old_slots, state_slot)).len()
            <= u64::MAX,
    ensures
        reindex::index_places(
            e2store::file_bytes(reindex::with_indexes(content, old_slots, state_slot)),
            0,
            reindex::IndexPlaces::none(),
        ) == Ok::<reindex::IndexPlaces, ErrorView>(
            reindex::IndexPlaces {
                block: Some(e2store::file_bytes(content).len() as u64),
                state: match reindex::state_place(content) {
                    None => None,
                    Some(_) => Some(
                        e2store::entry_pos(
                            reindex::with_indexes(content, old_slots, state_slot),
                            content.len() as int + 1,
                        ) as u64,
                    ),
                },
                first_slot: None,
                later_slot: None,
            },
        ),
{
    types::lemma_type_codes();
    let all = reindex::with_indexes(content, old_slots, state_slot);
    let n = content.len() as int;
    let none = reindex::IndexPlaces::none();
    lemma_rebuilt_wf(content, old_slots, state_slot);
    assert(all.take(0) =~= Seq::empty());
    assert(all.take(n) =~= content);
    assert forall|j: int| 0 <= j < n implies !reindex::any_index_type(
        (#[trigger] all[j]).header.typ,
    ) by {
        assert(all[j] == content[j]);
    }
    lemma_places_pass(all, 0, n, none);
    lemma_places_step(all, n, none);
    let found = none.with(types::TYPE_BLOCK_INDEX, e2store::file_bytes(content).len() as u64);
    match reindex::state_place(content) {
        None => {
            lemma_places_end(all, found);
        },
        Some(place) => {
            lemma_places_step(all, n + 1, found);
            lemma_places_end(
                all,
                found.with(types::TYPE_STATE_INDEX, e2store::entry_pos(all, n + 1) as u64),
            );
        },
    }
}

/// The blocks of a file start before its end.
proof fn lemma_places_before(content: Seq<EntryView>)
    ensures
        reindex::block_places(content).len() == reindex::block_total(content),
        forall|i: int|
            0 <= i < reindex::block_places(content).len() ==> #[trigger] reindex::block_places(
                content,
            )[i] < e2store::file_bytes(content).len(),
{
    let places = reindex::block_places(content);
    let n = content.len() as int;
    reindex::lemma_places_len(content);
    assert forall|i: int| 0 <= i < places.len() implies #[trigger] places[i]
        < e2store::file_bytes(content).len() by {
        let at = lemma_place(content, i);
        assert(content.take(n) =~= content);
        crate::write::laws::lemma_pos_order(content, at, n);
    }
}

/// What the indexes of a rebuilt file say.
proof fn lemma_rebuilt_metadata(
    content: Seq<EntryView>,
    old_slots: Seq<u64>,
    state_slot: Option<u64>,
)
    requires
        plain(content),
        reindex::indexable(reindex::assigned_slots(old_slots, reindex::block_total(content))),
        ascending(reindex::assigned_slots(old_slots, reindex::block_total(content))),
        e2store::file_bytes(reindex::with_indexes(content, old_slots, state_slot)).len()
            <= u64::MAX,
    ensures
        reindex::metadata_of(
            e2store::file_bytes(reindex::with_indexes(content, old_slots, state_slot)),
        ) == Ok::<(Seq<u64>, Option<u64>), ErrorView>(
            (
                reindex::assigned_slots(old_slots, reindex::block_total(content)),
                match reindex::state_place(content) {
                    None => None,
                    Some(_) => Some(
                        match state_slot {
                            Some(slot) => slot,
                            None => 0,
                        },
                    ),
                },
            ),
        ),
{
    let all = reindex::with_indexes(content, old_slots, state_slot);
    let data = e2store::file_bytes(all);
    let n = content.len() as int;
    let idx = reindex::rebuilt_block_index(content, old_slots);
    let block_place = Some(e2store::file_bytes(content).len() as u64);
    let state_place = match reindex::state_place(content) {
        None => None,
        Some(_) => Some(e2store::entry_pos(all, n + 1) as u64),
    };
    lemma_rebuilt_places(content, old_slots, state_slot);
    assert(e2store::file_bytes(content).len() <= u64::MAX) by {
        assert(all.take(n) =~= content);
        crate::verify::scan::lemma_entry_pos_step(all, n);
    }
    assert(reindex::index_at(data, block_place) == Ok::<Option<SlotIndexView>, ErrorView>(
        Some(idx),
    )) by {
        lemma_rebuilt_wf(content, old_slots, state_slot);
        assert(all.take(n) =~= content);
        lemma_index_at(all, n, idx);
    }
    assert(reindex::slots_of(idx) == reindex::assigned_slots(
        old_slots,
        reindex::block_total(content),
    )) by {
        lemma_rebuilt_slots(content, old_slots);
    }
    match reindex::state_place(content) {
        None => {
            assert(reindex::index_at(data, state_place) == Ok::<Option<SlotIndexView>, ErrorView>(
                None,
            ));
        },
        Some(place) => {
            let slot = match state_slot {
                Some(slot) => slot,
                None => 0,
            };
            let entries = reindex::with_block_index(content, old_slots);
            let state_idx = reindex::rebuilt_state_index(entries, slot, place);
            assert(reindex::index_at(data, state_place) == Ok::<Option<SlotIndexView>, ErrorView>(
                Some(state_idx),
            )) by {
                lemma_rebuilt_wf(content, old_slots, state_slot);
                lemma_index_at(all, n + 1, state_idx);
            }
        },
    }
}

/// An index entry is found where it starts.
proof fn lemma_index_at(entries: Seq<EntryView>, i: int, idx: SlotIndexView)
    requires
        e2store::all_wf(entries),
        0 <= i < entries.len(),
        e2store::file_bytes(entries).len() <= u64::MAX,
        entries[i].data == idx.encoded(),
    ensures
        reindex::index_at(
            e2store::file_bytes(entries),
            Some(e2store::entry_pos(entries, i) as u64),
        ) == Ok::<Option<SlotIndexView>, ErrorView>(Some(idx)),
{
    crate::write::laws::entry_found(entries, i);
    era::slot_index_roundtrip(idx);
}

/// The new block index gives back the slots.
proof fn lemma_rebuilt_slots(content: Seq<EntryView>, old_slots: Seq<u64>)
    requires
        content.len() > 0,
        ascending(reindex::assigned_slots(old_slots, reindex::block_total(content))),
        e2store::file_bytes(content).len() <= u64::MAX,
    ensures
        reindex::slots_of(reindex::rebuilt_block_index(content, old_slots))
            == reindex::assigned_slots(old_slots, reindex::block_total(content)),
{
    let n = content.len() as int;
    assert(content.take(0) =~= Seq::empty());
    assert(content.take(n) =~= content);
    crate::write::laws::lemma_pos_order(content, 0, n);
    lemma_places_before(content);
    lemma_slots_back(
        reindex::assigned_slots(old_slots, reindex::block_total(content)),
        reindex::block_places(content),
        e2store::file_bytes(content).len() as int,
    );
}

/// Reindexing a file that has been reindexed or stripped changes nothing, if
/// the blocks are in ascending order of slots.
pub proof fn reindexing_twice(data: Seq<u8>, config: StripConfig)
    requires
        reindex::result_of(data) is Ok,
        reindex::reindexable(data),
        reindex::output_of(data, config).len() <= u64::MAX,
        ascending(new_slots(data, config)),
    ensures
        reindex::result_of(reindex::output_of(data, config)) is Ok,
        reindex::output_of(reindex::output_of(data, config), StripConfig::nothing())
            == reindex::output_of(data, config),
{
    let content = reindex::content_of(data, config);
    let (old_slots, state_slot) = reindex::metadata_of(data)->Ok_0;
    let out = reindex::output_of(data, config);
    let slots = new_slots(data, config);
    lemma_written_wf(data, config);
    lemma_content(data, config);
    reindexed_file_reads(data, config);
    reindexing_keeps_content(data, config);
    lemma_rebuilt_metadata(content, old_slots, state_slot);
    let all = reindex::entries_written(data, config);
    crate::write::laws::entry_found(all, 0);
    assert(all.skip(0) =~= all);
    assert(all[0] == content[0]);
    assert(reindex::assigned_slots(slots, reindex::block_total(content)) =~= slots);
}

/// Leaving out entries twice leaves out what either configuration leaves out.
proof fn lemma_kept_twice(entries: Seq<EntryView>, c1: StripConfig, c2: StripConfig)
    ensures
        reindex::kept(reindex::kept(entries, c1), c2) == reindex::kept(entries, c1.or(c2)),
    decreases entries.len(),
{
    if entries.len() > 0 {
        lemma_kept_twice(entries.drop_last(), c1, c2);
        let front = reindex::kept(entries.drop_last(), c1);
        assert(front.push(entries.last()).drop_last() =~= front);
    }
}

/// What a second strip leaves of a stripped file.
proof fn lemma_content_twice(data: Seq<u8>, c1: StripConfig, c2: StripConfig)
    requires
        reindex::result_of(data) is Ok,
        reindex::reindexable(data),
    ensures
        reindex::content_of(reindex::output_of(data, c1), c2) == reindex::content_of(
            data,
            c1.or(c2),
        ),
{
    types::lemma_type_codes();
    reindexed_file_reads(data, c1);
    let content = reindex::content_of(data, c1);
    let all = reindex::entries_written(data, c1);
    let old = e2store::stream_entries(data);
    let indexed = reindex::with_block_index(content, reindex::metadata_of(data)->Ok_0.0);
    let rest = reindex::kept(old.skip(1), c1);
    assert(content.skip(1) =~= rest);
    assert(indexed.skip(1).drop_last() =~= rest);
    assert(reindex::kept(indexed.skip(1), c2) == reindex::kept(rest, c2));
    if all.len() > indexed.len() {
        assert(all.skip(1).drop_last() =~= indexed.skip(1));
    } else {
        assert(all =~= indexed);
    }
    assert(reindex::kept(all.skip(1), c2) == reindex::kept(rest, c2));
    assert(all[0] == old[0]);
    lemma_kept_twice(old.skip(1), c1, c2);
}

/// Two strips in a row are one strip of what either leaves out, byte for byte,
/// if the blocks are in ascending order of slots.
pub proof fn strips_combine(data: Seq<u8>, c1: StripConfig, c2: StripConfig)
    requires
        reindex::result_of(data) is Ok,
        reindex::reindexable(data),
        reindex::output_of(data, c1).len() <= u64::MAX,
        ascending(new_slots(data, c1)),
    ensures
        reindex::result_of(reindex::output_of(data, c1)) is Ok,
        reindex::reindexable(reindex::output_of(data, c1)),
        reindex::output_of(reindex::output_of(data, c1), c2) == reindex::output_of(
            data,
            c1.or(c2),
        ),
{
    types::lemma_type_codes();
    let content = reindex::content_of(data, c1);
    let last = reindex::content_of(data, c1.or(c2));
    let (old_slots, state_slot) = reindex::metadata_of(data)->Ok_0;
    let out = reindex::output_of(data, c1);
    let slots = new_slots(data, c1);
    let all = reindex::entries_written(data, c1);
    let old = e2store::stream_entries(data);
    lemma_written_wf(data, c1);
    lemma_content(data, c1);
    reindexed_file_reads(data, c1);
    lemma_rebuilt_metadata(content, old_slots, state_slot);
    lemma_content_twice(data, c1, c2);
    crate::write::laws::entry_found(all, 0);
    assert(all.skip(0) =~= all);
    assert(all[0] == content[0]);
    // No block goes
    let n = reindex::block_total(content);
    reindex::lemma_kept_blocks(old.skip(1), c1);
    reindex::lemma_kept_blocks(old.skip(1), c1.or(c2));
    reindex::lemma_version_blocks(old[0], reindex::kept(old.skip(1), c1));
    reindex::lemma_version_blocks(old[0], reindex::kept(old.skip(1), c1.or(c2)));
    assert(reindex::block_total(last) == n);
    assert(reindex::assigned_slots(slots, n) =~= slots);
    assert(reindex::assigned_slots(old_slots, n) == slots);
    // The same blocks are there to be indexed again
    lemma_rebuilt_blocks(content, old_slots, state_slot);
    reindex::lemma_version_blocks(all[0], all.skip(1));
    assert(seq![all[0]] + all.skip(1) =~= all);
    // A state that stays has the slot that it had
    let again = match reindex::state_place(content) {
        None => None,
        Some(_) => Some(
            match state_slot {
                Some(slot) => slot,
                None => 0,
            },
        ),
    };
    assert(reindex::metadata_of(out) == Ok::<(Seq<u64>, Option<u64>), ErrorView>((slots, again)));
    if reindex::state_place(content) is None {
        lemma_no_state(old[0], reindex::kept(old.skip(1), c1), c2);
        lemma_kept_twice(old.skip(1), c1, c2);
    }
    assert(reindex::with_block_index(last, slots) == reindex::with_block_index(last, old_slots));
    assert(reindex::with_indexes(last, slots, again) == reindex::with_indexes(
        last,
        old_slots,
        state_slot,
    ));
}

/// New indexes start no block.
proof fn lemma_rebuilt_blocks(content: Seq<EntryView>, slots: Seq<u64>, state_slot: Option<u64>)
    ensures
        reindex::block_total(reindex::with_indexes(content, slots, state_slot))
            == reindex::block_total(content),
{
    types::lemma_type_codes();
    let indexed = reindex::with_block_index(content, slots);
    let all = reindex::with_indexes(content, slots, state_slot);
    assert(indexed.drop_last() =~= content);
    assert(indexed.last().header.typ == types::TYPE_BLOCK_INDEX);
    assert(reindex::block_total(indexed) == reindex::block_total(content));
    if reindex::state_place(content) is Some {
        assert(all.drop_last() =~= indexed);
        assert(all.last().header.typ == types::TYPE_STATE_INDEX);
    }
}

/// Leaving out entries adds no state.
proof fn lemma_no_state(version: EntryView, entries: Seq<EntryView>, config: StripConfig)
    requires
        reindex::state_place(seq![version] + entries) is None,
    ensures
        reindex::state_place(seq![version] + reindex::kept(entries, config)) is None,
    decreases entries.len(),
{
    let all = seq![version] + entries;
    if entries.len() > 0 {
        assert(all.drop_last() =~= seq![version] + entries.drop_last());
        assert(all.last() == entries.last());
        lemma_no_state(version, entries.drop_last(), config);
        let front = reindex::kept(entries.drop_last(), config);
        assert((seq![version] + front.push(entries.last())).drop_last() =~= seq![version] + front);
    } else {
        assert(reindex::kept(entries, config) =~= entries);
    }
}

/// Strips can be done in any order, and doing one again changes nothing, if the
/// blocks are in ascending order of slots.
pub proof fn strips_commute(data: Seq<u8>, c1: StripConfig, c2: StripConfig)
    requires
        reindex::result_of(data) is Ok,
        reindex::reindexable(data),
        reindex::output_of(data, c1).len() <= u64::MAX,
        reindex::output_of(data, c2).len() <= u64::MAX,
        ascending(new_slots(data, StripConfig::nothing())),
    ensures
        reindex::output_of(reindex::output_of(data, c1), c2) == reindex::output_of(
            reindex::output_of(data, c2),
            c1,
        ),
        reindex::output_of(reindex::output_of(data, c1), c1) == reindex::output_of(data, c1),
{
    lemma_same_slots(data, StripConfig::nothing(), c1);
    lemma_same_slots(data, StripConfig::nothing(), c2);
    strips_combine(data, c1, c2);
    strips_combine(data, c2, c1);
    strips_combine(data, c1, c1);
    assert(c1.or(c2) == c2.or(c1));
    assert(c1.or(c1) == c1);
}

/// The blocks get the same slots whatever is stripped.
proof fn lemma_same_slots(data: Seq<u8>, c1: StripConfig, c2: StripConfig)
    requires
        reindex::result_of(data) is Ok,
    ensures
        new_slots(data, c1) == new_slots(data, c2),
{
    let old = e2store::stream_entries(data);
    reindex::lemma_kept_blocks(old.skip(1), c1);
    reindex::lemma_kept_blocks(old.skip(1), c2);
    reindex::lemma_version_blocks(old[0], reindex::kept(old.skip(1), c1));
    reindex::lemma_version_blocks(old[0], reindex::kept(old.skip(1), c2));
}

/// The pass over the entries of a file is the same whatever follows them.
proof fn lemma_scan_prefix(all: Seq<EntryView>, content: Seq<EntryView>, n: int)
    requires
        content.len() <= all.len(),
        forall|i: int| 0 <= i < content.len() ==> #[trigger] all[i] == content[i],
        0 <= n <= content.len(),
    ensures
        scan::scanned(all, verify::decompression_failures(all), n) == scan::scanned(
            content,
            verify::decompression_failures(content),
            n,
        ),
    decreases n,
{
    if n > 1 {
        lemma_scan_prefix(all, content, n - 1);
        assert(all.take(n - 1) =~= content.take(n - 1));
        assert(all[n - 1] == content[n - 1]);
    }
}

/// The pass over content counts its blocks, finds its state and no index.
proof fn lemma_scan_content(content: Seq<EntryView>, n: int)
    requires
        plain(content),
        content.len() <= usize::MAX,
        1 <= n <= content.len(),
    ensures
        ({
            let s = scan::scanned(content, verify::decompression_failures(content), n);
            &&& s.block_count == reindex::block_total(content.take(n))
            &&& reindex::block_total(content.take(n)) < n
            &&& s.state_pos == match reindex::state_place(content.take(n)) {
                Some(pos) => Some(pos as u64),
                None => None,
            }
            &&& s.block_index is None
            &&& s.state_index is None
            &&& !s.slot_index_seen
        }),
    decreases n,
{
    types::lemma_type_codes();
    reveal_with_fuel(reindex::block_total, 2);
    reveal_with_fuel(reindex::state_place, 2);
    assert(content.take(n).drop_last() =~= content.take(n - 1));
    if n > 1 {
        lemma_scan_content(content, n - 1);
    } else {
        assert(content.take(0) =~= Seq::empty());
    }
}

/// How many of the slots are below `limit`.
spec fn slots_below(slots: Seq<u64>, limit: int) -> nat
    decreases slots.len(),
{
    if slots.len() == 0 {
        0
    } else {
        slots_below(slots.drop_last(), limit) + if slots.last() < limit {
            1nat
        } else {
            0nat
        }
    }
}

proof fn lemma_slots_below_step(slots: Seq<u64>, slot: u64)
    requires
        distinct(slots),
    ensures
        slots_below(slots, slot + 1) == slots_below(slots, slot as int) + if slots.contains(slot) {
            1nat
        } else {
            0nat
        },
    decreases slots.len(),
{
    if slots.len() > 0 {
        let front = slots.drop_last();
        lemma_slots_below_step(front, slot);
        if slots.last() == slot {
            assert(slots[slots.len() - 1] == slot);
            if front.contains(slot) {
                let i = choose|i: int| 0 <= i < front.len() && front[i] == slot;
                assert(slots[i] != slots[slots.len() - 1]);
            }
        } else {
            if slots.contains(slot) {
                let i = choose|i: int| 0 <= i < slots.len() && slots[i] == slot;
                assert(front[i] == slot);
            }
            if front.contains(slot) {
                let i = choose|i: int| 0 <= i < front.len() && front[i] == slot;
                assert(slots[i] == slot);
            }
        }
    }
}

proof fn lemma_slots_below_ends(slots: Seq<u64>, low: int, limit: int)
    requires
        forall|i: int| 0 <= i < slots.len() ==> low <= #[trigger] slots[i] < limit,
    ensures
        slots_below(slots, low) == 0,
        slots_below(slots, limit) == slots.len(),
    decreases slots.len(),
{
    if slots.len() > 0 {
        lemma_slots_below_ends(slots.drop_last(), low, limit);
    }
}

/// Where the block with a slot is, which entry that is, and that the index
/// leads there.
proof fn lemma_slot_entry(
    content: Seq<EntryView>,
    all: Seq<EntryView>,
    slots: Seq<u64>,
    k: int,
) -> (i: int)
    requires
        plain(content),
        content.len() < all.len(),
        forall|i: int| 0 <= i < content.len() ==> #[trigger] all[i] == content[i],
        slots.len() == reindex::block_total(content),
        distinct(slots),
        0 <= k < slots.len(),
        e2store::file_bytes(all).len() <= u64::MAX,
    ensures
        1 <= i < content.len(),
        reindex::block_entry_type(content[i].header.typ),
        reindex::offset_for(
            slots,
            reindex::block_places(content),
            e2store::file_bytes(content).len() as int,
            slots[k] as int,
            slots.len() as int,
        ) != 0,
        0 < e2store::entry_pos(all, i) < e2store::file_bytes(all).len(),
        bytes::wrap64(
            e2store::file_bytes(content).len() as u64 + reindex::offset_for(
                slots,
                reindex::block_places(content),
                e2store::file_bytes(content).len() as int,
                slots[k] as int,
                slots.len() as int,
            ),
        ) == e2store::entry_pos(all, i),
        verify::entry_at(all, all.len() as int, e2store::entry_pos(all, i) as u64) == Some(i),
{
    types::lemma_type_codes();
    let n = content.len() as int;
    let i = lemma_place(content, k);
    let index_pos = e2store::file_bytes(content).len() as int;
    assert(content.take(i) =~= all.take(i));
    assert(all.take(n) =~= content);
    assert(all.take(0) =~= Seq::empty());
    crate::write::laws::lemma_pos_order(all, 0, i);
    crate::write::laws::lemma_pos_order(all, i, n);
    crate::verify::scan::lemma_entry_pos_step(all, n);
    lemma_offset_for(slots, reindex::block_places(content), index_pos, k, slots.len() as int);
    crate::write::laws::offset_leads_back(
        index_pos,
        reindex::block_places(content)[k] as int,
    );
    crate::write::laws::lemma_entry_at(all, all.len() as int, i);
    i
}

/// The first `n` offsets of the new index count the blocks below, and nothing
/// is wrong with them.
proof fn lemma_new_index_sound(
    content: Seq<EntryView>,
    all: Seq<EntryView>,
    slots: Seq<u64>,
    typ: [u8; 2],
    n: int,
)
    requires
        plain(content),
        content.len() < all.len(),
        forall|i: int| 0 <= i < content.len() ==> #[trigger] all[i] == content[i],
        slots.len() == reindex::block_total(content),
        slots.len() > 0,
        distinct(slots),
        reindex::indexable(slots),
        e2store::file_bytes(all).len() <= u64::MAX,
        forall|i: int|
            0 <= i < content.len() && reindex::block_entry_type(
                (#[trigger] content[i]).header.typ,
            ) ==> content[i].header.typ == typ,
        0 <= n <= slots.last() - slots[0] + 1,
    ensures
        ({
            let index_pos = e2store::file_bytes(content).len();
            let idx = reindex::index_of_blocks(
                slots,
                reindex::block_places(content),
                index_pos as int,
            );
            &&& verify::indexed_count(idx.offsets, index_pos as u64, n) == slots_below(
                slots,
                slots[0] + n,
            )
            &&& verify::offset_errors(all, Some(typ), index_pos as u64, idx, n).len() == 0
        }),
    decreases n,
{
    let index_pos = e2store::file_bytes(content).len();
    let places = reindex::block_places(content);
    let idx = reindex::index_of_blocks(slots, places, index_pos as int);
    if n == 0 {
        lemma_slots_below_ends(slots, slots[0] as int, slots.last() + 1);
    } else {
        lemma_new_index_sound(content, all, slots, typ, n - 1);
        assert(slots[0] <= slots.last());
        let slot = (slots[0] + (n - 1)) as u64;
        lemma_slots_below_step(slots, slot);
        assert(idx.offsets[n - 1] == reindex::offset_for(
            slots,
            places,
            index_pos as int,
            slot as int,
            slots.len() as int,
        ));
        if slots.contains(slot) {
            let k = choose|k: int| 0 <= k < slots.len() && slots[k] == slot;
            let i = lemma_slot_entry(content, all, slots, k);
            assert(all[i] == content[i]);
            assert(all.take(content.len() as int) =~= content);
            crate::verify::scan::lemma_entry_pos_step(all, content.len() as int);
        } else {
            assert forall|i: int| 0 <= i < slots.len() implies #[trigger] slots[i] != slot by {}
            lemma_no_offset(slots, places, index_pos as int, slot as int, slots.len() as int);
        }
    }
}

/// What is wrong with the content of a file by itself: entries that do not
/// decompress or have the wrong size, and incomplete blocks.
pub open spec fn content_errors(content: Seq<EntryView>) -> Seq<Seq<char>> {
    let s = scan::scanned(
        content,
        verify::decompression_failures(content),
        content.len() as int,
    );
    s.errors + scan::final_group_errors(s.group)
}

/// The format that the content of a file tells.
pub open spec fn content_format(content: Seq<EntryView>) -> Option<EraFormat> {
    scan::scanned(
        content,
        verify::decompression_failures(content),
        content.len() as int,
    ).format
}

/// Whether all blocks are of the type that belongs to the format.
pub open spec fn one_format(content: Seq<EntryView>) -> bool {
    forall|i: int|
        0 <= i < content.len() && reindex::block_entry_type((#[trigger] content[i]).header.typ)
            ==> verify::block_type(content_format(content)) == Some(content[i].header.typ)
}

/// The pass over a rebuilt file finds the new indexes.
proof fn lemma_scan_rebuilt(
    content: Seq<EntryView>,
    old_slots: Seq<u64>,
    state_slot: Option<u64>,
)
    requires
        plain(content),
        content.len() <= usize::MAX,
    ensures
        ({
            let all = reindex::with_indexes(content, old_slots, state_slot);
            let s = scan::scanned(
                all,
                verify::decompression_failures(all),
                all.len() as int,
            );
            let c = scan::scanned(
                content,
                verify::decompression_failures(content),
                content.len() as int,
            );
            &&& s.errors == c.errors
            &&& s.group == c.group
            &&& s.format == c.format
            &&& s.block_count == reindex::block_total(content)
            &&& s.block_index == Some(reindex::rebuilt_block_index(content, old_slots))
            &&& s.block_index_pos == e2store::file_bytes(content).len() as u64
            &&& s.state_pos == match reindex::state_place(content) {
                Some(pos) => Some(pos as u64),
                None => None,
            }
            &&& reindex::state_place(content) matches Some(place) ==> {
                &&& s.state_index_pos == e2store::entry_pos(all, content.len() as int + 1) as u64
                &&& s.state_index == Some(
                    reindex::rebuilt_state_index(
                        reindex::with_block_index(content, old_slots),
                        match state_slot {
                            Some(slot) => slot,
                            None => 0,
                        },
                        place,
                    ),
                )
            }
            &&& reindex::state_place(content) is None ==> s.state_index is None
        }),
{
    types::lemma_type_codes();
    let all = reindex::with_indexes(content, old_slots, state_slot);
    let n = content.len() as int;
    let why = verify::decompression_failures(all);
    assert forall|i: int| 0 <= i < content.len() implies #[trigger] all[i] == content[i] by {}
    lemma_scan_prefix(all, content, n);
    lemma_scan_content(content, n);
    assert(content.take(n) =~= content);
    assert(all.take(n) =~= content);
    era::slot_index_roundtrip(reindex::rebuilt_block_index(content, old_slots));
    let s0 = scan::scanned(all, why, n);
    let s1 = scan::scanned(all, why, n + 1);
    assert(s1 == s0.step(n, e2store::entry_pos(all, n) as u64, all[n], why[n]));
    assert(s1.errors =~= s0.errors);
    match reindex::state_place(content) {
        None => {},
        Some(place) => {
            let slot = match state_slot {
                Some(slot) => slot,
                None => 0,
            };
            let entries = reindex::with_block_index(content, old_slots);
            era::slot_index_roundtrip(reindex::rebuilt_state_index(entries, slot, place));
            let s2 = scan::scanned(all, why, n + 2);
            assert(s2 == s1.step(n + 1, e2store::entry_pos(all, n + 1) as u64, all[n + 1], why[n
                + 1]));
            assert(s2.errors =~= s1.errors);
        },
    }
}

proof fn lemma_state_place_before(content: Seq<EntryView>)
    ensures
        reindex::state_place(content) matches Some(pos) ==> pos < e2store::file_bytes(
            content,
        ).len(),
    decreases content.len(),
{
    if content.len() > 0 {
        lemma_state_place_before(content.drop_last());
        e2store::lemma_header_len(content.last().header);
    }
}

/// The indexes of a reindexed or stripped file pass verification: what is found
/// wrong with the file is what is wrong with its content. This holds if no two
/// blocks have the same slot and the blocks are all of the file's format.
pub proof fn reindexed_file_verifies(data: Seq<u8>, config: StripConfig)
    requires
        reindex::result_of(data) is Ok,
        reindex::reindexable(data),
        reindex::output_of(data, config).len() <= u64::MAX,
        reindex::content_of(data, config).len() <= usize::MAX,
        distinct(new_slots(data, config)),
        one_format(reindex::content_of(data, config)),
    ensures
        verify::verification_of(reindex::output_of(data, config)).errors == content_errors(
            reindex::content_of(data, config),
        ),
        verify::verification_of(reindex::output_of(data, config)).block_count
            == reindex::block_total(reindex::content_of(data, config)),
{
    let content = reindex::content_of(data, config);
    let all = reindex::entries_written(data, config);
    let (old_slots, state_slot) = reindex::metadata_of(data)->Ok_0;
    let slots = new_slots(data, config);
    let n = content.len() as int;
    lemma_written_wf(data, config);
    lemma_content(data, config);
    reindexed_file_reads(data, config);
    crate::write::laws::entry_found(all, 0);
    assert(all.skip(0) =~= all);
    assert(all[0] == content[0]);
    lemma_scan_rebuilt(content, old_slots, state_slot);
    let s = scan::scanned(all, verify::decompression_failures(all), all.len() as int);
    assert forall|i: int| 0 <= i < content.len() implies #[trigger] all[i] == content[i] by {}
    lemma_block_index_clean(content, all, slots, s.format);
    assert(verify::block_index_errors(all, s) =~= Seq::empty());
    assert(verify::state_index_errors(s) =~= Seq::empty()) by {
        if reindex::state_place(content) is Some {
            let entries = reindex::with_block_index(content, old_slots);
            let place = reindex::state_place(content)->Some_0;
            lemma_state_place_before(content);
            assert(all.take(n) =~= content);
            assert(all.take(n + 1) =~= entries);
            crate::verify::scan::lemma_entry_pos_step(all, n);
            crate::verify::scan::lemma_entry_pos_step(all, n + 1);
            crate::write::laws::offset_leads_back(
                e2store::file_bytes(entries).len() as int,
                place as int,
            );
        }
    }
    assert(verify::all_errors(all, s) =~= content_errors(content));
}

/// Nothing is wrong with the new block index.
proof fn lemma_block_index_clean(
    content: Seq<EntryView>,
    all: Seq<EntryView>,
    slots: Seq<u64>,
    format: Option<EraFormat>,
)
    requires
        plain(content),
        content.len() < all.len(),
        forall|i: int| 0 <= i < content.len() ==> #[trigger] all[i] == content[i],
        slots.len() == reindex::block_total(content),
        distinct(slots),
        reindex::indexable(slots),
        e2store::file_bytes(all).len() <= u64::MAX,
        forall|i: int|
            0 <= i < content.len() && reindex::block_entry_type(
                (#[trigger] content[i]).header.typ,
            ) ==> verify::block_type(format) == Some(content[i].header.typ),
    ensures
        ({
            let index_pos = e2store::file_bytes(content).len();
            let idx = reindex::index_of_blocks(
                slots,
                reindex::block_places(content),
                index_pos as int,
            );
            let len = idx.offsets.len() as int;
            &&& verify::indexed_count(idx.offsets, index_pos as u64, len) == slots.len()
            &&& verify::offset_errors(
                all,
                verify::block_type(format),
                index_pos as u64,
                idx,
                len,
            ).len() == 0
        }),
{
    if slots.len() > 0 {
        let i = lemma_place(content, 0);
        let typ = content[i].header.typ;
        assert(slots[0] <= slots.last());
        lemma_new_index_sound(content, all, slots, typ, slots.last() - slots[0] + 1);
        lemma_slots_below_ends(slots, slots[0] as int, slots.last() + 1);
    }
}

/// The name that splitting gives to the file of a block tells its slot again
/// when an archive is built from such files.
pub proof fn split_name_tells_slot(slot: u64)
    ensures
        naming::ends_with(split::block_file_name(slot), ".snappy"@),
        naming::numeral(
            split::block_file_name(slot).take(split::block_file_name(slot).len() - 7),
        ) == Some(slot),
{
    reveal_strlit(".snappy");
    let name = split::block_file_name(slot);
    naming::padded_numeral(slot, 0);
    assert(name.skip(name.len() - 7) =~= ".snappy"@);
    assert(name.take(name.len() - 7) =~= text::dec(slot as nat));
}

/// Splitting gives a file for each block, with its data as it stands in the
/// archive.
pub proof fn split_file_of_block(entries: Seq<EntryView>, slots: Seq<u64>, i: int)
    requires
        0 <= i < entries.len(),
        reindex::block_entry_type(entries[i].header.typ),
    ensures
        split::block_files(entries, slots).len() == reindex::block_total(entries),
        ({
            let k = reindex::block_total(entries.take(i));
            let file = split::block_files(entries, slots)[k as int];
            &&& k < split::block_files(entries, slots).len()
            &&& file.name == split::block_file_name(reindex::assigned_slot(slots, k as int))
            &&& file.data == entries[i].data
        }),
    decreases entries.len(),
{
    let front = entries.drop_last();
    lemma_file_count(entries, slots);
    lemma_file_count(front, slots);
    if i < front.len() {
        split_file_of_block(front, slots, i);
        assert(front.take(i) =~= entries.take(i));
    } else {
        assert(entries.take(i) =~= front);
    }
}

proof fn lemma_file_count(entries: Seq<EntryView>, slots: Seq<u64>)
    ensures
        split::block_files(entries, slots).len() == reindex::block_total(entries),
    decreases entries.len(),
{
    if entries.len() > 0 {
        lemma_file_count(entries.drop_last(), slots);
    }
}

/// The blocks of an ERA file that is made from an ERA1 file have the slots that
/// the index of the ERA1 file gives them, in order, and no two have the same.
pub proof fn conversion_keeps_slots<E>(data: Seq<u8>, replies: Seq<Result<Seq<u8>, E>>)
    requires
        convert::conversion_of(data, replies) is Built,
    ensures
        ({
            let b = convert::conversion_of(data, replies)->Built_0;
            let slots = split::indexed_slots(EraRandomReaderView::open(data)->Ok_0);
            &&& b.wf()
            &&& b.state is None
            &&& b.blocks.len() == EraBlockReaderView::start(data).blocks().len()
            &&& forall|k: int|
                0 <= k < b.blocks.len() ==> (#[trigger] b.blocks[k]).0 == reindex::assigned_slot(
                    slots,
                    k,
                )
        }),
{
    let v = EraRandomReaderView::open(data)->Ok_0;
    lemma_conversion(
        EraBlockReaderView::start(data),
        split::indexed_slots(v),
        replies,
        0,
        crate::write::empty_builder(),
    );
}

proof fn lemma_conversion<E>(
    v: EraBlockReaderView,
    slots: Seq<u64>,
    replies: Seq<Result<Seq<u8>, E>>,
    k: nat,
    b: EraBuilderView,
)
    requires
        convert::conversion(v, slots, replies, k, b) is Built,
        b.wf(),
        b.blocks.len() == k,
        forall|i: int|
            0 <= i < k ==> (#[trigger] b.blocks[i]).0 == reindex::assigned_slot(slots, i),
    ensures
        ({
            let r = convert::conversion(v, slots, replies, k, b)->Built_0;
            &&& r.wf()
            &&& r.state == b.state
            &&& r.blocks.len() == k + v.blocks().len()
            &&& forall|i: int|
                0 <= i < r.blocks.len() ==> (#[trigger] r.blocks[i]).0 == reindex::assigned_slot(
                    slots,
                    i,
                )
        }),
    decreases v.measure(),
{
    crate::read::block::lemma_after_block(v);
    match v.next() {
        Ok(Some(BlockView::Era1(_))) => {
            let ssz = replies[k as int]->Ok_0;
            let compressed = era::snappy_encoded(ssz);
            let slot = reindex::assigned_slot(slots, k as int);
            let next = b.with_block(slot, compressed);
            assert forall|i: int, j: int| 0 <= i < j < next.blocks.len() implies (
            #[trigger] next.blocks[i]).0 != (#[trigger] next.blocks[j]).0 by {
                assert(next.blocks[i] == b.blocks[i]);
                if j < b.blocks.len() {
                    assert(next.blocks[j] == b.blocks[j]);
                }
            }
            assert forall|i: int| 0 <= i < k + 1 implies (#[trigger] next.blocks[i]).0
                == reindex::assigned_slot(slots, i) by {
                if i < k {
                    assert(next.blocks[i] == b.blocks[i]);
                }
            }
            lemma_conversion(v.after(), slots, replies, k + 1, next);
        },
        _ => {},
    }
}

/// Each block of an ERA file that is made from an ERA1 file is found at the
/// slot that the ERA1 file gives it, and is what the synthesizer replied. The
/// highest slot number there is cannot be looked up.
pub proof fn converted_block_found<E>(
    data: Seq<u8>,
    replies: Seq<Result<Seq<u8>, E>>,
    k: int,
)
    requires
        convert::conversion_of(data, replies) is Built,
        convert::readable(convert::conversion_of(data, replies), replies),
        ({
            let b = convert::conversion_of(data, replies)->Built_0;
            &&& b.fits()
            &&& e2store::file_bytes(b.entries()).len() <= u64::MAX
            &&& crate::write::max_slot(b.blocks) < u64::MAX
            &&& 0 <= k < b.blocks.len()
        }),
    ensures
        ({
            let b = convert::conversion_of(data, replies)->Built_0;
            let slots = split::indexed_slots(EraRandomReaderView::open(data)->Ok_0);
            EraRandomReaderView::open(e2store::file_bytes(b.entries())) matches Ok(r)
                && r.block_at(reindex::assigned_slot(slots, k)) == Ok::<
                Option<BlockView>,
                ErrorView,
            >(Some(BlockView::Era(replies[k]->Ok_0)))
        }),
{
    let b = convert::conversion_of(data, replies)->Built_0;
    conversion_keeps_slots(data, replies);
    crate::write::laws::built_block_found(b, k);
    assert(b.blocks[k].0 == reindex::assigned_slot(
        split::indexed_slots(EraRandomReaderView::open(data)->Ok_0),
        k,
    ));
}

/// An ERA file that is made from an ERA1 file is valid and holds all its blocks.
pub proof fn converted_file_verifies<E>(data: Seq<u8>, replies: Seq<Result<Seq<u8>, E>>)
    requires
        convert::conversion_of(data, replies) is Built,
        convert::readable(convert::conversion_of(data, replies), replies),
        ({
            let b = convert::conversion_of(data, replies)->Built_0;
            &&& b.fits()
            &&& e2store::file_bytes(b.entries()).len() <= u64::MAX
            &&& b.blocks.len() <= usize::MAX
        }),
    ensures
        ({
            let b = convert::conversion_of(data, replies)->Built_0;
            let r = verify::verification_of(e2store::file_bytes(b.entries()));
            &&& r.valid
            &&& r.block_count == EraBlockReaderView::start(data).blocks().len()
            &&& r.warnings.len() == 0
            &&& r.format == if b.blocks.len() > 0 {
                Some("ERA"@)
            } else {
                None
            }
        }),
{
    let b = convert::conversion_of(data, replies)->Built_0;
    conversion_keeps_slots(data, replies);
    crate::write::laws::built_file_verifies(b);
}

/// The conversion of a file whose blocks can all be read and are ERA1 blocks with
/// distinct slots is not refused if the synthesizer refuses no block.
pub proof fn conversion_succeeds<E>(data: Seq<u8>, replies: Seq<Result<Seq<u8>, E>>)
    requires
        EraRandomReaderView::open(data) is Ok,
        EraBlockReaderView::start(data).failure() is None,
        ({
            let slots = split::indexed_slots(EraRandomReaderView::open(data)->Ok_0);
            let blocks = EraBlockReaderView::start(data).blocks();
            &&& forall|i: int|
                0 <= i < blocks.len() ==> (#[trigger] blocks[i]) is Era1
            &&& replies.len() >= blocks.len()
            &&& forall|i: int| 0 <= i < blocks.len() ==> (#[trigger] replies[i]) is Ok
            &&& distinct(reindex::assigned_slots(slots, blocks.len()))
        }),
    ensures
        convert::conversion_of(data, replies) is Built,
{
    let slots = split::indexed_slots(EraRandomReaderView::open(data)->Ok_0);
    let start = EraBlockReaderView::start(data);
    lemma_conversion_succeeds(
        start,
        slots,
        replies,
        0,
        crate::write::empty_builder(),
        start.blocks().len(),
    );
}

proof fn lemma_conversion_succeeds<E>(
    v: EraBlockReaderView,
    slots: Seq<u64>,
    replies: Seq<Result<Seq<u8>, E>>,
    k: nat,
    b: EraBuilderView,
    n: nat,
)
    requires
        v.failure() is None,
        forall|i: int| 0 <= i < v.blocks().len() ==> (#[trigger] v.blocks()[i]) is Era1,
        k + v.blocks().len() == n,
        n <= replies.len(),
        forall|i: int| 0 <= i < n ==> (#[trigger] replies[i]) is Ok,
        distinct(reindex::assigned_slots(slots, n)),
        b.blocks.len() == k,
        forall|i: int|
            0 <= i < k ==> (#[trigger] b.blocks[i]).0 == reindex::assigned_slot(slots, i),
    ensures
        convert::conversion(v, slots, replies, k, b) is Built,
    decreases v.measure(),
{
    crate::read::block::lemma_after_block(v);
    let all = v.blocks();
    match v.next() {
        Ok(Some(block)) => {
            let rest = v.after().blocks();
            assert(all == seq![block] + rest);
            assert(all[0] == block);
            assert(replies[k as int] is Ok);
            let slot = reindex::assigned_slot(slots, k as int);
            let next = b.with_block(slot, era::snappy_encoded(replies[k as int]->Ok_0));
            assert(!b.has_slot(slot)) by {
                if b.has_slot(slot) {
                    let i = choose|i: int|
                        0 <= i < b.blocks.len() && (#[trigger] b.blocks[i]).0 == slot;
                    let given = reindex::assigned_slots(slots, n);
                    assert(given[i] == given[k as int]);
                }
            }
            assert forall|i: int| 0 <= i < k + 1 implies (#[trigger] next.blocks[i]).0
                == reindex::assigned_slot(slots, i) by {
                if i < k {
                    assert(next.blocks[i] == b.blocks[i]);
                }
            }
            assert forall|i: int| 0 <= i < rest.len() implies (#[trigger] rest[i]) is Era1 by {
                assert(rest[i] == all[i + 1]);
            }
            lemma_conversion_succeeds(v.after(), slots, replies, k + 1, next, n);
        },
        _ => {},
    }
}

} // verus!
