//! What stays of a file, which slots its blocks get, and where its new indexes
//! lead.

use vstd::prelude::*;

use crate::convert::laws;
use crate::convert::reindex;
use crate::convert::reindex::IndexPlaces;
use crate::convert::split;
use crate::convert::strip::StripConfig;
use crate::error::{ErrorView, IoErrorView};
use crate::format::e2store;
use crate::format::e2store::EntryView;
use crate::format::era;
use crate::format::era::SlotIndexView;
use crate::format::laws as layout;
use crate::read::access;
use crate::read::random;
use crate::read::random::EraRandomReaderView;
use crate::text;

verus! {

/// Whether an entry has a type of these two bytes.
pub open spec fn is_of(e: EntryView, first: u8, second: u8) -> bool {
    layout::has_code(e.header.typ, first, second)
}

/// Whether an entry is an index.
pub open spec fn is_index(e: EntryView) -> bool {
    is_of(e, 0x66, 0x32) || is_of(e, 0x69, 0x32) || is_of(e, 0x33, 0x00)
}

/// Whether an entry stays in a stripped file: it is no index, and of no type
/// whose flag is set.
pub open spec fn stays(config: StripConfig) -> spec_fn(EntryView) -> bool {
    |e: EntryView|
        {
            &&& !is_index(e)
            &&& is_of(e, 0x05, 0x00) ==> !config.receipts
            &&& is_of(e, 0x04, 0x00) ==> !config.bodies
            &&& is_of(e, 0x06, 0x00) ==> !config.total_difficulty
            &&& is_of(e, 0x02, 0x00) ==> !config.state
            &&& is_of(e, 0x07, 0x00) ==> !config.accumulator
        }
}

/// Whether an entry is a beacon block or the header of an ERA1 block.
pub open spec fn begins_block() -> spec_fn(EntryView) -> bool {
    |e: EntryView| is_of(e, 0x01, 0x00) || is_of(e, 0x03, 0x00)
}

/// Whether an offset is used.
pub open spec fn nonzero() -> spec_fn(i64) -> bool {
    |offset: i64| offset != 0
}

/// Each flag of a configuration leaves out the entries of one type, and of no
/// other.
pub proof fn flags_name_types(config: StripConfig, typ: [u8; 2])
    ensures
        layout::has_code(typ, 0x05, 0x00) ==> config.keeps(typ) == !config.receipts,
        layout::has_code(typ, 0x04, 0x00) ==> config.keeps(typ) == !config.bodies,
        layout::has_code(typ, 0x06, 0x00) ==> config.keeps(typ) == !config.total_difficulty,
        layout::has_code(typ, 0x02, 0x00) ==> config.keeps(typ) == !config.state,
        layout::has_code(typ, 0x07, 0x00) ==> config.keeps(typ) == !config.accumulator,
        typ[1] != 0 || typ[0] < 0x02 || typ[0] == 0x03 || typ[0] > 0x07 ==> config.keeps(typ),
{
    layout::type_codes(typ);
}

/// What stays of a list of entries, picked one by one.
proof fn lemma_kept(entries: Seq<EntryView>, config: StripConfig)
    ensures
        reindex::kept(entries, config) == entries.filter(stays(config)),
    decreases entries.len(),
{
    reveal(Seq::filter);
    if entries.len() > 0 {
        lemma_kept(entries.drop_last(), config);
        layout::type_codes(entries.last().header.typ);
    }
}

/// The blocks of a list of entries, counted one by one.
proof fn lemma_total(entries: Seq<EntryView>)
    ensures
        reindex::block_total(entries) == entries.filter(begins_block()).len(),
    decreases entries.len(),
{
    reveal(Seq::filter);
    if entries.len() > 0 {
        lemma_total(entries.drop_last());
        layout::type_codes(entries.last().header.typ);
    }
}

/// No block is left out.
proof fn lemma_blocks_stay(entries: Seq<EntryView>, config: StripConfig)
    ensures
        entries.filter(stays(config)).filter(begins_block()) == entries.filter(begins_block()),
    decreases entries.len(),
{
    if entries.len() > 0 {
        lemma_blocks_stay(entries.drop_last(), config);
        let front = entries.drop_last();
        let e = entries.last();
        assert(front.push(e) =~= entries);
        front.lemma_filter_push(e, stays(config));
        front.lemma_filter_push(e, begins_block());
        front.filter(stays(config)).lemma_filter_push(e, begins_block());
    } else {
        reveal(Seq::filter);
        assert(entries.filter(stays(config)) =~= entries);
    }
}

/// The block with `k` blocks before it is the block `k`.
proof fn lemma_nth(entries: Seq<EntryView>, i: int)
    requires
        0 <= i < entries.len(),
        begins_block()(entries[i]),
    ensures
        entries.take(i).filter(begins_block()).len() < entries.filter(begins_block()).len(),
        entries.filter(begins_block())[entries.take(i).filter(begins_block()).len() as int]
            == entries[i],
    decreases entries.len(),
{
    let front = entries.drop_last();
    let e = entries.last();
    assert(front.push(e) =~= entries);
    front.lemma_filter_push(e, begins_block());
    if i < front.len() {
        lemma_nth(front, i);
        assert(front.take(i) =~= entries.take(i));
    } else {
        assert(entries.take(i) =~= front);
    }
}

/// A version in front is no block.
proof fn lemma_skip_version(version: EntryView, rest: Seq<EntryView>)
    requires
        !begins_block()(version),
    ensures
        (seq![version] + rest).filter(begins_block()) == rest.filter(begins_block()),
{
    let none = Seq::<EntryView>::empty();
    Seq::filter_distributes_over_add(seq![version], rest, begins_block());
    none.lemma_filter_push(version, begins_block());
    assert(none.push(version) =~= seq![version]);
    reveal(Seq::filter);
    assert(none.filter(begins_block()) =~= none);
    assert(none + rest.filter(begins_block()) =~= rest.filter(begins_block()));
}

/// A file can be reindexed or stripped if and only if it can be read to its end
/// and starts with a version.
pub proof fn reindexing_succeeds(data: Seq<u8>)
    requires
        data.len() <= u64::MAX,
    ensures
        reindex::result_of(data) is Ok <==> e2store::all_entries_of(data) is Ok,
{
    let raw = e2store::stream_entries(data);
    if reindex::result_of(data) is Ok {
        lemma_readable(data);
    }
    if e2store::all_entries_of(data) is Ok {
        let none = IndexPlaces::none();
        let n = raw.len() as int;
        assert(places_right(raw, none, 0));
        lemma_places(data, none, 0);
        let places = reindex::index_places(data, 0, none)->Ok_0;
        if places.block is Some {
            let q = choose|q: int| #[trigger]
                last_of(raw, 0x66, 0x32, q, n) && places.block->Some_0 == layout::place_of(raw, q);
            lemma_index_read(data, q);
        } else if places.first_slot is Some {
            let f = choose|f: int|
                f < n && #[trigger] first_of(raw, 0x69, 0x32, f) && places.first_slot->Some_0
                    == layout::place_of(raw, f);
            lemma_index_read(data, f);
        }
        if places.state is Some {
            let q = choose|q: int| #[trigger]
                last_of(raw, 0x33, 0x00, q, n) && places.state->Some_0 == layout::place_of(raw, q);
            lemma_index_read(data, q);
        } else if places.later_slot is Some {
            let f = choose|f: int|
                f < n && #[trigger] first_of(raw, 0x69, 0x32, f) && places.first_slot->Some_0
                    == layout::place_of(raw, f) && match places.later_slot {
                    None => last_of(raw, 0x69, 0x32, f, n),
                    Some(later) => exists|q: int| #[trigger]
                        last_of(raw, 0x69, 0x32, q, n) && q > f && later == layout::place_of(
                            raw,
                            q,
                        ),
                };
            let q = choose|q: int| #[trigger]
                last_of(raw, 0x69, 0x32, q, n) && q > f && places.later_slot->Some_0
                    == layout::place_of(raw, q);
            lemma_index_read(data, q);
        }
    }
}

/// What can be reindexed can be read to its end, and starts with a version.
proof fn lemma_readable(data: Seq<u8>)
    requires
        reindex::result_of(data) is Ok,
    ensures
        e2store::all_entries_of(data) == Ok::<Seq<EntryView>, IoErrorView>(
            e2store::stream_entries(data),
        ),
        e2store::stream_failure(data) is None,
        e2store::stream_entries(data).len() > 0,
        is_of(e2store::stream_entries(data)[0], 0x65, 0x32),
        !is_index(e2store::stream_entries(data)[0]),
        !begins_block()(e2store::stream_entries(data)[0]),
{
    let raw = e2store::stream_entries(data);
    layout::type_codes(raw[0].header.typ);
}

/// Whether a state stays in a stripped file.
pub open spec fn state_stays(raw: Seq<EntryView>, config: StripConfig) -> bool {
    !config.state && exists|i: int| 1 <= i < raw.len() && is_of(#[trigger] raw[i], 0x02, 0x00)
}

/// Where the last state of a list is.
proof fn lemma_state_place(content: Seq<EntryView>)
    ensures
        match reindex::state_place(content) {
            None => forall|i: int|
                0 <= i < content.len() ==> !is_of(#[trigger] content[i], 0x02, 0x00),
            Some(place) => exists|s: int| #[trigger]
                last_of(content, 0x02, 0x00, s, content.len() as int) && place
                    == layout::place_of(content, s),
        },
    decreases content.len(),
{
    if content.len() > 0 {
        let front = content.drop_last();
        let n = front.len() as int;
        lemma_state_place(front);
        layout::type_codes(content.last().header.typ);
        assert forall|i: int| 0 <= i < n implies #[trigger] content[i] == front[i] by {}
        if is_of(content.last(), 0x02, 0x00) {
            assert(last_of(content, 0x02, 0x00, n, n + 1));
            layout::file_layout(content, n);
            assert(content.take(n) =~= front);
        } else if reindex::state_place(front) is Some {
            let s = choose|s: int| #[trigger]
                last_of(front, 0x02, 0x00, s, n) && reindex::state_place(front)->Some_0
                    == layout::place_of(front, s);
            assert forall|q: int| s < q < n + 1 implies !is_of(#[trigger] content[q], 0x02, 0x00) by {
                if q < n {
                    assert(content[q] == front[q]);
                }
            }
            assert(content[s] == front[s]);
            assert(last_of(content, 0x02, 0x00, s, n + 1));
            lemma_same_places(front, content, s);
        } else {
            assert forall|i: int| 0 <= i < content.len() implies !is_of(
                #[trigger] content[i],
                0x02,
                0x00,
            ) by {
                if i < n {
                    assert(content[i] == front[i]);
                }
            }
        }
    }
}

proof fn lemma_same_places(a: Seq<EntryView>, b: Seq<EntryView>, i: int)
    requires
        0 <= i <= a.len() <= b.len(),
        forall|k: int| 0 <= k < a.len() ==> #[trigger] a[k] == b[k],
    ensures
        layout::place_of(a, i) == layout::place_of(b, i),
    decreases i,
{
    if i > 0 {
        lemma_same_places(a, b, i - 1);
        assert(a[i - 1] == b[i - 1]);
    }
}

/// Whether the entry at `p` is the last of its type below `n`.
pub open spec fn last_of(raw: Seq<EntryView>, first: u8, second: u8, p: int, n: int) -> bool {
    &&& 0 <= p < n
    &&& is_of(raw[p], first, second)
    &&& forall|q: int| p < q < n ==> !is_of(#[trigger] raw[q], first, second)
}

/// Whether the entry at `p` is the first of its type.
pub open spec fn first_of(raw: Seq<EntryView>, first: u8, second: u8, p: int) -> bool {
    &&& 0 <= p
    &&& is_of(raw[p], first, second)
    &&& forall|q: int| 0 <= q < p ==> !is_of(#[trigger] raw[q], first, second)
}

/// Whether no entry below `n` has a type of these two bytes.
pub open spec fn none_of(raw: Seq<EntryView>, first: u8, second: u8, n: int) -> bool {
    forall|q: int| 0 <= q < n ==> !is_of(#[trigger] raw[q], first, second)
}

/// A stripped file holds the version, then each entry after it that stays,
/// unchanged and in order, then the block index, and then a state index if a
/// state stays.
#[verifier::spinoff_prover]
pub proof fn stripped_file_holds(data: Seq<u8>, config: StripConfig)
    requires
        reindex::result_of(data) is Ok,
        reindex::reindexable(data),
    ensures
        ({
            let raw = e2store::stream_entries(data);
            let out = e2store::stream_entries(reindex::output_of(data, config));
            let n = 1 + raw.skip(1).filter(stays(config)).len() as int;
            &&& out.take(n) == seq![raw[0]] + raw.skip(1).filter(stays(config))
            &&& is_of(out[n], 0x66, 0x32)
            &&& era::slot_index_of(out[n].data) is Ok
            &&& state_stays(raw, config) ==> out.len() == n + 2 && is_of(out[n + 1], 0x33, 0x00)
                && era::slot_index_of(out[n + 1].data) is Ok
            &&& !state_stays(raw, config) ==> out.len() == n + 1
            &&& e2store::stream_failure(reindex::output_of(data, config)) is None
        }),
{
    let raw = e2store::stream_entries(data);
    let out = e2store::stream_entries(reindex::output_of(data, config));
    let content = reindex::content_of(data, config);
    let n = content.len() as int;
    laws::reindexed_file_reads(data, config);
    lemma_readable(data);
    lemma_kept(raw.skip(1), config);
    assert(out.take(n) =~= content);
    layout::type_codes(out[n].header.typ);
    let (slots, state_slot) = reindex::metadata_of(data)->Ok_0;
    let block_index = reindex::rebuilt_block_index(content, slots);
    era::slot_index_roundtrip(block_index);
    lemma_state_place(content);
    lemma_state_stays(raw, content, config);
    match reindex::state_place(content) {
        Some(place) => {
            layout::type_codes(out[n + 1].header.typ);
            let state_index = reindex::rebuilt_state_index(
                reindex::with_block_index(content, slots),
                match state_slot {
                    Some(slot) => slot,
                    None => 0,
                },
                place,
            );
            era::slot_index_roundtrip(state_index);
            let s = choose|s: int| #[trigger]
                last_of(content, 0x02, 0x00, s, n) && place == layout::place_of(content, s);
            assert(is_of(content[s], 0x02, 0x00));
        },
        None => {},
    }
}

/// Of a file that cannot be read to its end what stays of the entries before is
/// written, without indexes.
pub proof fn cut_file_written(data: Seq<u8>, config: StripConfig)
    requires
        reindex::metadata_of(data) is Ok,
        e2store::stream_entries(data).len() > 0,
        is_of(e2store::stream_entries(data)[0], 0x65, 0x32),
        e2store::stream_failure(data) is Some,
    ensures
        reindex::result_of(data) == Err::<(), ErrorView>(
            ErrorView::Io(e2store::stream_failure(data)->Some_0),
        ),
        reindex::output_of(data, config) == e2store::file_bytes(
            seq![e2store::stream_entries(data)[0]] + e2store::stream_entries(data).skip(1).filter(
                stays(config),
            ),
        ),
{
    let raw = e2store::stream_entries(data);
    layout::type_codes(raw[0].header.typ);
    lemma_kept(raw.skip(1), config);
}

/// A state is among what stays if one was there and states stay.
proof fn lemma_state_stays(raw: Seq<EntryView>, content: Seq<EntryView>, config: StripConfig)
    requires
        raw.len() > 0,
        is_of(raw[0], 0x65, 0x32),
        content == seq![raw[0]] + raw.skip(1).filter(stays(config)),
    ensures
        state_stays(raw, config) <==> exists|i: int|
            0 <= i < content.len() && is_of(#[trigger] content[i], 0x02, 0x00),
{
    broadcast use vstd::seq_lib::group_filter_ensures;

    let rest = raw.skip(1);
    let picked = rest.filter(stays(config));
    if state_stays(raw, config) {
        let i = choose|i: int| 1 <= i < raw.len() && is_of(#[trigger] raw[i], 0x02, 0x00);
        assert(rest[i - 1] == raw[i]);
        assert(stays(config)(rest[i - 1]));
        assert(picked.contains(rest[i - 1]));
        let j = choose|j: int| 0 <= j < picked.len() && picked[j] == rest[i - 1];
        assert(content[j + 1] == picked[j]);
        assert(is_of(content[j + 1], 0x02, 0x00));
    }
    if exists|i: int| 0 <= i < content.len() && is_of(#[trigger] content[i], 0x02, 0x00) {
        let i = choose|i: int| 0 <= i < content.len() && is_of(#[trigger] content[i], 0x02, 0x00);
        assert(content[i] == picked[i - 1]);
        assert(stays(config)(picked[i - 1]));
        lemma_filter_member(rest, stays(config), i - 1);
        let j = choose|j: int| 0 <= j < rest.len() && rest[j] == picked[i - 1];
        assert(raw[j + 1] == rest[j]);
        assert(is_of(raw[j + 1], 0x02, 0x00));
    }
}

/// What is picked out of a list is in it.
proof fn lemma_filter_member(s: Seq<EntryView>, p: spec_fn(EntryView) -> bool, k: int)
    requires
        0 <= k < s.filter(p).len(),
    ensures
        exists|j: int| 0 <= j < s.len() && s[j] == #[trigger] s.filter(p)[k],
    decreases s.len(),
{
    reveal(Seq::filter);
    if s.len() > 0 {
        let front = s.drop_last();
        if k < front.filter(p).len() {
            lemma_filter_member(front, p, k);
            let j = choose|j: int| 0 <= j < front.len() && front[j] == #[trigger] front.filter(p)[k];
            assert(s[j] == s.filter(p)[k]);
        } else {
            assert(s[s.len() - 1] == s.filter(p)[k]);
        }
    }
}

/// The slots that an index gives to blocks: as many as there are offsets other
/// than 0. The slot `k` is that of the offset with `k` such offsets before it.
pub proof fn slots_listed(idx: SlotIndexView, j: int)
    ensures
        reindex::slots_of(idx).len() == idx.offsets.filter(nonzero()).len(),
        0 <= j < idx.offsets.len() && idx.offsets[j] != 0 && idx.starting_slot + j <= u64::MAX ==> {
            let k = idx.offsets.take(j).filter(nonzero()).len() as int;
            k < reindex::slots_of(idx).len() && reindex::slots_of(idx)[k] == idx.starting_slot + j
        },
{
    let n = idx.offsets.len() as int;
    lemma_listed(idx, j, n);
    assert(idx.offsets.take(n) =~= idx.offsets);
}

proof fn lemma_listed(idx: SlotIndexView, j: int, n: int)
    requires
        0 <= n <= idx.offsets.len(),
    ensures
        reindex::used_slot_list(idx, n).len() == idx.offsets.take(n).filter(nonzero()).len(),
        0 <= j < n && idx.offsets[j] != 0 && idx.starting_slot + j <= u64::MAX ==> {
            let k = idx.offsets.take(j).filter(nonzero()).len() as int;
            k < reindex::used_slot_list(idx, n).len() && reindex::used_slot_list(idx, n)[k]
                == idx.starting_slot + j
        },
    decreases n,
{
    if n > 0 {
        lemma_listed(idx, j, n - 1);
        let before = idx.offsets.take(n - 1);
        before.lemma_filter_push(idx.offsets[n - 1], nonzero());
        assert(before.push(idx.offsets[n - 1]) =~= idx.offsets.take(n));
    } else {
        reveal(Seq::filter);
        assert(idx.offsets.take(n) =~= Seq::empty());
    }
}

/// Whether places of indexes are right for the entries below `n`.
spec fn places_right(raw: Seq<EntryView>, places: IndexPlaces, n: int) -> bool {
    &&& match places.block {
        None => none_of(raw, 0x66, 0x32, n),
        Some(at) => exists|p: int| #[trigger]
            last_of(raw, 0x66, 0x32, p, n) && at == layout::place_of(raw, p),
    }
    &&& match places.state {
        None => none_of(raw, 0x33, 0x00, n),
        Some(at) => exists|p: int| #[trigger]
            last_of(raw, 0x33, 0x00, p, n) && at == layout::place_of(raw, p),
    }
    &&& match places.first_slot {
        None => none_of(raw, 0x69, 0x32, n) && places.later_slot is None,
        Some(at) => exists|f: int|
            f < n && #[trigger] first_of(raw, 0x69, 0x32, f) && at == layout::place_of(raw, f)
                && match places.later_slot {
                None => last_of(raw, 0x69, 0x32, f, n),
                Some(later) => exists|p: int| #[trigger]
                    last_of(raw, 0x69, 0x32, p, n) && p > f && later == layout::place_of(raw, p),
            },
    }
}

#[verifier::spinoff_prover]
proof fn lemma_places_step(raw: Seq<EntryView>, places: IndexPlaces, n: int)
    requires
        0 <= n < raw.len(),
        layout::place_of(raw, n) <= u64::MAX,
        places_right(raw, places, n),
    ensures
        places_right(
            raw,
            places.with(raw[n].header.typ, layout::place_of(raw, n) as u64),
            n + 1,
        ),
{
    let at = layout::place_of(raw, n) as u64;
    let next = places.with(raw[n].header.typ, at);
    layout::type_codes(raw[n].header.typ);
    if is_of(raw[n], 0x66, 0x32) {
        assert(last_of(raw, 0x66, 0x32, n, n + 1));
    } else if places.block is Some {
        let p = choose|p: int| #[trigger]
            last_of(raw, 0x66, 0x32, p, n) && places.block->Some_0 == layout::place_of(raw, p);
        assert(last_of(raw, 0x66, 0x32, p, n + 1));
    }
    if is_of(raw[n], 0x33, 0x00) {
        assert(last_of(raw, 0x33, 0x00, n, n + 1));
    } else if places.state is Some {
        let p = choose|p: int| #[trigger]
            last_of(raw, 0x33, 0x00, p, n) && places.state->Some_0 == layout::place_of(raw, p);
        assert(last_of(raw, 0x33, 0x00, p, n + 1));
    }
    if places.first_slot is None {
        if is_of(raw[n], 0x69, 0x32) {
            assert(first_of(raw, 0x69, 0x32, n));
            assert(last_of(raw, 0x69, 0x32, n, n + 1));
        }
    } else {
        let f = choose|f: int|
            f < n && #[trigger] first_of(raw, 0x69, 0x32, f) && places.first_slot->Some_0
                == layout::place_of(raw, f) && match places.later_slot {
                None => last_of(raw, 0x69, 0x32, f, n),
                Some(later) => exists|p: int| #[trigger]
                    last_of(raw, 0x69, 0x32, p, n) && p > f && later == layout::place_of(raw, p),
            };
        if is_of(raw[n], 0x69, 0x32) {
            assert(last_of(raw, 0x69, 0x32, n, n + 1));
        } else if places.later_slot is None {
            assert(last_of(raw, 0x69, 0x32, f, n + 1));
        } else {
            let p = choose|p: int| #[trigger]
                last_of(raw, 0x69, 0x32, p, n) && p > f && places.later_slot->Some_0
                    == layout::place_of(raw, p);
            assert(last_of(raw, 0x69, 0x32, p, n + 1));
        }
        assert(first_of(raw, 0x69, 0x32, f));
    }
}

proof fn lemma_places(data: Seq<u8>, before: IndexPlaces, i: int)
    requires
        e2store::stream_failure(data) is None,
        data.len() <= u64::MAX,
        0 <= i <= e2store::stream_entries(data).len(),
        places_right(e2store::stream_entries(data), before, i),
    ensures
        reindex::index_places(data, layout::place_of(e2store::stream_entries(data), i), before)
            matches Ok(places) && places_right(
            e2store::stream_entries(data),
            places,
            e2store::stream_entries(data).len() as int,
        ),
    decreases e2store::stream_entries(data).len() - i,
{
    let raw = e2store::stream_entries(data);
    let at = layout::place_of(raw, i);
    let s = data.skip(at as int);
    access::entries_from(data, i);
    layout::entry_reading(s);
    layout::header_scanning(s);
    if i < raw.len() {
        let h = e2store::next_header_of(s)->Ok_0->Some_0;
        assert(h.typ =~= raw[i].header.typ);
        access::entries_from(data, i + 1);
        assert(layout::place_of(raw, i + 1) == at + 8 + h.length);
        lemma_places_step(raw, before, i);
        lemma_places(data, before.with(h.typ, at as u64), i + 1);
    } else {
        assert(raw.skip(i).len() == 0);
        assert(s.len() < 8);
    }
}

/// Whether the entry at `p` is the index that gives the blocks their slots: the
/// last block index, or the first generic slot index of a file without a block
/// index.
pub open spec fn slots_from(raw: Seq<EntryView>, p: int) -> bool {
    let n = raw.len() as int;
    &&& p < n
    &&& last_of(raw, 0x66, 0x32, p, n) || (none_of(raw, 0x66, 0x32, n) && first_of(
        raw,
        0x69,
        0x32,
        p,
    ))
}

/// Whether the entry at `p` is the index that gives the state its slot: the last
/// state index, or the last generic slot index after the first in a file
/// without a state index.
pub open spec fn state_slot_from(raw: Seq<EntryView>, p: int) -> bool {
    let n = raw.len() as int;
    ||| last_of(raw, 0x33, 0x00, p, n)
    ||| none_of(raw, 0x33, 0x00, n) && last_of(raw, 0x69, 0x32, p, n) && !first_of(
        raw,
        0x69,
        0x32,
        p,
    )
}

proof fn lemma_last_unique(raw: Seq<EntryView>, first: u8, second: u8, p: int, q: int, n: int)
    requires
        last_of(raw, first, second, p, n),
        last_of(raw, first, second, q, n),
    ensures
        p == q,
{
    assert(is_of(raw[p], first, second));
    assert(is_of(raw[q], first, second));
}

proof fn lemma_index_read(data: Seq<u8>, p: int)
    requires
        e2store::stream_failure(data) is None,
        data.len() <= u64::MAX,
        0 <= p < e2store::stream_entries(data).len(),
    ensures
        reindex::index_at(
            data,
            Some(layout::place_of(e2store::stream_entries(data), p) as u64),
        ) == Ok::<Option<SlotIndexView>, ErrorView>(
            match era::slot_index_of(e2store::stream_entries(data)[p].data) {
                Ok(idx) => Some(idx),
                Err(_) => None,
            },
        ),
{
    access::entries_from(data, p);
}

/// The slots of the blocks of a file are those that its block index gives them,
/// if that can be decoded, and the slot of its state is the first slot of its
/// state index.
#[verifier::spinoff_prover]
#[verifier::rlimit(60)]
pub proof fn slots_read(data: Seq<u8>, p: int)
    requires
        reindex::result_of(data) is Ok,
        data.len() <= u64::MAX,
    ensures
        ({
            let raw = e2store::stream_entries(data);
            let n = raw.len() as int;
            let (slots, state_slot) = reindex::metadata_of(data)->Ok_0;
            &&& slots_from(raw, p) ==> slots == (match era::slot_index_of(raw[p].data) {
                Ok(idx) => reindex::slots_of(idx),
                Err(_) => Seq::empty(),
            })
            &&& none_of(raw, 0x66, 0x32, n) && none_of(raw, 0x69, 0x32, n) ==> slots.len() == 0
            &&& state_slot_from(raw, p) ==> state_slot == (match era::slot_index_of(raw[p].data) {
                Ok(idx) => Some(idx.starting_slot),
                Err(_) => None,
            })
            &&& none_of(raw, 0x33, 0x00, n) && none_of(raw, 0x69, 0x32, n) ==> state_slot is None
        }),
{
    let raw = e2store::stream_entries(data);
    let n = raw.len() as int;
    lemma_readable(data);
    let none = IndexPlaces::none();
    assert(places_right(raw, none, 0));
    lemma_places(data, none, 0);
    let places = reindex::index_places(data, 0, none)->Ok_0;
    assert(layout::place_of(raw, 0) == 0);
    if slots_from(raw, p) {
        assert(is_of(raw[p], 0x66, 0x32) || is_of(raw[p], 0x69, 0x32));
        if places.block is Some {
            let q = choose|q: int| #[trigger]
                last_of(raw, 0x66, 0x32, q, n) && places.block->Some_0 == layout::place_of(raw, q);
            assert(is_of(raw[q], 0x66, 0x32));
            lemma_last_unique(raw, 0x66, 0x32, p, q, n);
        } else {
            assert(first_of(raw, 0x69, 0x32, p)) by {
                if last_of(raw, 0x66, 0x32, p, n) {
                    assert(is_of(raw[p], 0x66, 0x32));
                }
            }
            assert(places.first_slot is Some);
            let f = choose|f: int|
                f < n && #[trigger] first_of(raw, 0x69, 0x32, f) && places.first_slot->Some_0
                    == layout::place_of(raw, f);
            assert(is_of(raw[f], 0x69, 0x32));
            assert(f == p);
        }
        assert(places.of_blocks() == Some(layout::place_of(raw, p) as u64));
        lemma_index_read(data, p);
    }
    if state_slot_from(raw, p) {
        assert(is_of(raw[p], 0x33, 0x00) || is_of(raw[p], 0x69, 0x32));
        if places.state is Some {
            let q = choose|q: int| #[trigger]
                last_of(raw, 0x33, 0x00, q, n) && places.state->Some_0 == layout::place_of(raw, q);
            assert(is_of(raw[q], 0x33, 0x00));
            lemma_last_unique(raw, 0x33, 0x00, p, q, n);
        } else {
            assert(last_of(raw, 0x69, 0x32, p, n)) by {
                if last_of(raw, 0x33, 0x00, p, n) {
                    assert(is_of(raw[p], 0x33, 0x00));
                }
            }
            assert(!first_of(raw, 0x69, 0x32, p)) by {
                if last_of(raw, 0x33, 0x00, p, n) {
                    assert(is_of(raw[p], 0x33, 0x00));
                }
            }
            assert(places.first_slot is Some);
            let f = choose|f: int|
                f < n && #[trigger] first_of(raw, 0x69, 0x32, f) && places.first_slot->Some_0
                    == layout::place_of(raw, f) && match places.later_slot {
                    None => last_of(raw, 0x69, 0x32, f, n),
                    Some(later) => exists|q: int| #[trigger]
                        last_of(raw, 0x69, 0x32, q, n) && q > f && later == layout::place_of(
                            raw,
                            q,
                        ),
                };
            if places.later_slot is None {
                lemma_last_unique(raw, 0x69, 0x32, p, f, n);
            } else {
                let q = choose|q: int| #[trigger]
                    last_of(raw, 0x69, 0x32, q, n) && q > f && places.later_slot->Some_0
                        == layout::place_of(raw, q);
                lemma_last_unique(raw, 0x69, 0x32, p, q, n);
            }
        }
        assert(places.of_state() == Some(layout::place_of(raw, p) as u64));
        lemma_index_read(data, p);
    }
    if none_of(raw, 0x69, 0x32, n) {
        if places.first_slot is Some {
            let f = choose|f: int|
                f < n && #[trigger] first_of(raw, 0x69, 0x32, f) && places.first_slot->Some_0
                    == layout::place_of(raw, f);
            assert(is_of(raw[f], 0x69, 0x32));
        }
        if none_of(raw, 0x66, 0x32, n) && places.block is Some {
            let q = choose|q: int| #[trigger]
                last_of(raw, 0x66, 0x32, q, n) && places.block->Some_0 == layout::place_of(raw, q);
            assert(is_of(raw[q], 0x66, 0x32));
        }
        if none_of(raw, 0x33, 0x00, n) && places.state is Some {
            let q = choose|q: int| #[trigger]
                last_of(raw, 0x33, 0x00, q, n) && places.state->Some_0 == layout::place_of(raw, q);
            assert(is_of(raw[q], 0x33, 0x00));
        }
    }
}

/// The slot of the block `k`: the one that the index lists for it, or `k` if the
/// index lists no more.
pub open spec fn slot_of(slots: Seq<u64>, k: int) -> int {
    if k < slots.len() {
        slots[k] as int
    } else {
        k
    }
}

/// Looking up the slot of a block in a reindexed or stripped file leads to that
/// block: the block `k` of the file that it was made from. Of several blocks
/// with one slot the last counts. The highest slot number there is cannot be
/// looked up.
pub proof fn block_keeps_slot(data: Seq<u8>, config: StripConfig, k: int)
    requires
        reindex::result_of(data) is Ok,
        reindex::reindexable(data),
        reindex::output_of(data, config).len() <= u64::MAX,
        ({
            let blocks = e2store::stream_entries(data).skip(1).filter(begins_block());
            let slots = reindex::metadata_of(data)->Ok_0.0;
            &&& blocks.len() <= u64::MAX
            &&& 0 <= k < blocks.len()
            &&& slot_of(slots, blocks.len() - 1) < u64::MAX
            &&& forall|b: int|
                k < b < blocks.len() ==> #[trigger] slot_of(slots, b) != slot_of(slots, k)
        }),
    ensures
        ({
            let blocks = e2store::stream_entries(data).skip(1).filter(begins_block());
            let slot = slot_of(reindex::metadata_of(data)->Ok_0.0, k) as u64;
            EraRandomReaderView::open(reindex::output_of(data, config)) matches Ok(r) && (
            random::lookup(r.index, slot) matches Ok(pos) && e2store::next_entry_of(
                random::bytes_from(r.data, pos as int),
            ) == Ok::<Option<EntryView>, IoErrorView>(Some(blocks[k])))
        }),
{
    let raw = e2store::stream_entries(data);
    let rest = raw.skip(1);
    let blocks = rest.filter(begins_block());
    let slots = reindex::metadata_of(data)->Ok_0.0;
    let content = reindex::content_of(data, config);
    lemma_readable(data);
    lemma_kept(rest, config);
    lemma_blocks_stay(rest, config);
    lemma_skip_version(raw[0], rest.filter(stays(config)));
    assert(content.filter(begins_block()) == blocks);
    lemma_total(content);
    let assigned = laws::new_slots(data, config);
    assert(assigned.len() == blocks.len());
    assert forall|a: int| 0 <= a < assigned.len() implies #[trigger] assigned[a] == slot_of(
        slots,
        a,
    ) by {}
    assert(laws::last_with_slot(assigned, k)) by {
        assert forall|b: int| k < b < assigned.len() implies #[trigger] assigned[b]
            != assigned[k] by {
            assert(slot_of(slots, b) != slot_of(slots, k));
            assert(assigned[k] == slot_of(slots, k));
        }
    }
    let i = laws::reindexed_block_found(data, config, k);
    lemma_total(content.take(i));
    layout::type_codes(content[i].header.typ);
    lemma_nth(content, i);
    assert(assigned[k] == slot_of(slots, k));
}

/// The new block index starts at the slot of the first block and ends at that
/// of the last. Its count field counts the offsets other than 0, and where no
/// block has a slot the offset is 0.
#[verifier::spinoff_prover]
pub proof fn new_block_index(data: Seq<u8>, config: StripConfig, j: int)
    requires
        reindex::result_of(data) is Ok,
        reindex::reindexable(data),
        e2store::stream_entries(data).skip(1).filter(begins_block()).len() <= u64::MAX,
    ensures
        ({
            let raw = e2store::stream_entries(data);
            let blocks = raw.skip(1).filter(begins_block());
            let slots = reindex::metadata_of(data)->Ok_0.0;
            let out = e2store::stream_entries(reindex::output_of(data, config));
            let n = 1 + raw.skip(1).filter(stays(config)).len() as int;
            let idx = era::slot_index_of(out[n].data)->Ok_0;
            &&& idx.count == idx.offsets.filter(nonzero()).len()
            &&& blocks.len() == 0 ==> idx.starting_slot == 0 && idx.offsets.len() == 0
            &&& blocks.len() > 0 ==> idx.starting_slot == slot_of(slots, 0) && idx.offsets.len()
                == slot_of(slots, blocks.len() - 1) - slot_of(slots, 0) + 1
            &&& 0 <= j < idx.offsets.len() && (forall|k: int|
                0 <= k < blocks.len() ==> #[trigger] slot_of(slots, k) != idx.starting_slot + j)
                ==> idx.offsets[j] == 0
        }),
{
    let raw = e2store::stream_entries(data);
    let rest = raw.skip(1);
    let blocks = rest.filter(begins_block());
    let slots = reindex::metadata_of(data)->Ok_0.0;
    let content = reindex::content_of(data, config);
    let out = e2store::stream_entries(reindex::output_of(data, config));
    lemma_readable(data);
    lemma_kept(rest, config);
    lemma_blocks_stay(rest, config);
    lemma_skip_version(raw[0], rest.filter(stays(config)));
    lemma_total(content);
    laws::reindexed_file_reads(data, config);
    laws::lemma_written_wf(data, config);
    let assigned = laws::new_slots(data, config);
    assert(assigned.len() == blocks.len());
    let idx = reindex::rebuilt_block_index(content, slots);
    era::slot_index_roundtrip(idx);
    layout::used_slots_counted(idx.offsets);
    assert(idx.offsets.filter(nonzero()) == idx.offsets.filter(|o: i64| o != 0)) by {
        lemma_same_filter(idx.offsets);
    }
    if 0 <= j < idx.offsets.len() && (forall|k: int|
        0 <= k < blocks.len() ==> #[trigger] slot_of(slots, k) != idx.starting_slot + j) {
        assert forall|k: int| 0 <= k < assigned.len() implies #[trigger] assigned[k]
            != idx.starting_slot + j by {
            assert(slot_of(slots, k) != idx.starting_slot + j);
        }
        laws::lemma_no_offset(
            assigned,
            reindex::block_places(content),
            e2store::file_bytes(content).len() as int,
            idx.starting_slot + j,
            assigned.len() as int,
        );
    }
}

proof fn lemma_same_filter(s: Seq<i64>)
    ensures
        s.filter(nonzero()).len() <= s.len(),
        s.filter(nonzero()) == s.filter(|o: i64| o != 0),
    decreases s.len(),
{
    reveal(Seq::filter);
    if s.len() > 0 {
        lemma_same_filter(s.drop_last());
    }
}

/// The new state index has one offset, which leads to the last state of the new
/// file. It keeps the slot that the old state index gave the state, or 0.
#[verifier::spinoff_prover]
pub proof fn new_state_index(data: Seq<u8>, config: StripConfig, s: int)
    requires
        reindex::result_of(data) is Ok,
        reindex::reindexable(data),
        reindex::output_of(data, config).len() <= i64::MAX,
        ({
            let out = e2store::stream_entries(reindex::output_of(data, config));
            last_of(out, 0x02, 0x00, s, out.len() as int)
        }),
    ensures
        ({
            let raw = e2store::stream_entries(data);
            let out = e2store::stream_entries(reindex::output_of(data, config));
            let q = out.len() - 1;
            let idx = era::slot_index_of(out[q].data)->Ok_0;
            &&& is_of(out[q], 0x33, 0x00)
            &&& idx.offsets.len() == 1
            &&& idx.count == 1
            &&& layout::place_of(out, q) + idx.offsets[0] == layout::place_of(out, s)
            &&& idx.starting_slot == match reindex::metadata_of(data)->Ok_0.1 {
                Some(slot) => slot as int,
                None => 0,
            }
        }),
{
    let raw = e2store::stream_entries(data);
    let out = e2store::stream_entries(reindex::output_of(data, config));
    let content = reindex::content_of(data, config);
    let n = content.len() as int;
    let (slots, state_slot) = reindex::metadata_of(data)->Ok_0;
    stripped_file_holds(data, config);
    laws::reindexed_file_reads(data, config);
    lemma_readable(data);
    lemma_kept(raw.skip(1), config);
    assert(out.take(n) =~= content);
    assert(is_of(out[s], 0x02, 0x00));
    assert(s < n);
    assert(content[s] == out[s]);
    assert(last_of(content, 0x02, 0x00, s, n)) by {
        assert forall|q: int| s < q < n implies !is_of(#[trigger] content[q], 0x02, 0x00) by {
            assert(content[q] == out[q]);
        }
    }
    lemma_state_offset(content, slots, state_slot, s);
}

/// The state index of a rebuilt file leads to its last state.
#[verifier::spinoff_prover]
#[verifier::rlimit(60)]
proof fn lemma_state_offset(
    content: Seq<EntryView>,
    slots: Seq<u64>,
    state_slot: Option<u64>,
    s: int,
)
    requires
        last_of(content, 0x02, 0x00, s, content.len() as int),
        e2store::file_bytes(reindex::with_indexes(content, slots, state_slot)).len() <= i64::MAX,
    ensures
        ({
            let out = reindex::with_indexes(content, slots, state_slot);
            let q = out.len() - 1;
            let idx = era::slot_index_of(out[q].data)->Ok_0;
            &&& is_of(out[q], 0x33, 0x00)
            &&& idx.offsets.len() == 1
            &&& idx.count == 1
            &&& layout::place_of(out, q) + idx.offsets[0] == layout::place_of(out, s)
            &&& idx.starting_slot == match state_slot {
                Some(slot) => slot as int,
                None => 0,
            }
        }),
{
    let out = reindex::with_indexes(content, slots, state_slot);
    let n = content.len() as int;
    assert(is_of(content[s], 0x02, 0x00));
    lemma_state_place(content);
    let place = reindex::state_place(content)->Some_0;
    let t = choose|t: int| #[trigger]
        last_of(content, 0x02, 0x00, t, n) && place == layout::place_of(content, t);
    lemma_last_unique(content, 0x02, 0x00, s, t, n);
    let entries = reindex::with_block_index(content, slots);
    let base = e2store::file_bytes(entries).len() as int;
    let slot = match state_slot {
        Some(slot) => slot,
        None => 0,
    };
    let idx = reindex::rebuilt_state_index(entries, slot, place);
    era::slot_index_roundtrip(idx);
    assert(out[n + 1].data == idx.encoded());
    layout::type_codes(out[n + 1].header.typ);
    assert(base == layout::place_of(out, n + 1) && place == layout::place_of(out, s) && place < base
        && base <= i64::MAX) by {
        lemma_same_places(content, out, s);
        lemma_same_places(entries, out, n + 1);
        layout::file_layout(out, n + 1);
        layout::file_layout(entries, 0);
        lemma_places_order(out, s, n + 1);
    }
    crate::write::laws::offset_leads_back(base, place as int);
    assert(base + idx.offsets[0] == place) by {
        let o = crate::write::offset_from(base, place as int);
        assert(o == place - base);
    }
    reveal_with_fuel(era::used_slots, 2);
    assert(idx.offsets.drop_last() =~= Seq::empty());
}

proof fn lemma_places_order(raw: Seq<EntryView>, i: int, j: int)
    requires
        0 <= i < j,
    ensures
        layout::place_of(raw, i) < layout::place_of(raw, j),
    decreases j,
{
    if i < j - 1 {
        lemma_places_order(raw, i, j - 1);
    }
}

/// Splitting gives one file for each beacon block or ERA1 header, in order: the
/// data of the entry as it stands in the file, under the slot of the block. It
/// tells how many there are, unless the file cannot be read to its end.
pub proof fn split_files_hold(data: Seq<u8>, k: int)
    requires
        EraRandomReaderView::open(data) is Ok,
    ensures
        ({
            let blocks = e2store::stream_entries(data).skip(1).filter(begins_block());
            let files = split::files_of(data);
            let slots = match EraRandomReaderView::open(data)->Ok_0.index {
                Some(index) => reindex::slots_of(index.1),
                None => Seq::empty(),
            };
            &&& files.len() == blocks.len()
            &&& split::result_of(data) == match e2store::stream_failure(data) {
                None => Ok::<u64, ErrorView>(blocks.len() as u64),
                Some(e) => Err(ErrorView::Io(e)),
            }
            &&& 0 <= k < blocks.len() <= u64::MAX ==> files[k].data == blocks[k].data
                && files[k].name == text::dec(slot_of(slots, k) as nat) + ".snappy"@
        }),
{
    let rest = e2store::stream_entries(data).skip(1);
    let v = EraRandomReaderView::open(data)->Ok_0;
    let slots = split::indexed_slots(v);
    lemma_total(rest);
    lemma_files(rest, slots, k);
}

proof fn lemma_files(entries: Seq<EntryView>, slots: Seq<u64>, k: int)
    ensures
        split::block_files(entries, slots).len() == entries.filter(begins_block()).len(),
        0 <= k < entries.filter(begins_block()).len() <= u64::MAX ==> split::block_files(
            entries,
            slots,
        )[k].data == entries.filter(begins_block())[k].data && split::block_files(
            entries,
            slots,
        )[k].name == text::dec(slot_of(slots, k) as nat) + ".snappy"@,
    decreases entries.len(),
{
    if entries.len() > 0 {
        let front = entries.drop_last();
        lemma_files(front, slots, k);
        lemma_total(front);
        front.lemma_filter_push(entries.last(), begins_block());
        assert(front.push(entries.last()) =~= entries);
        layout::type_codes(entries.last().header.typ);
    } else {
        reveal(Seq::filter);
    }
}

} // verus!
