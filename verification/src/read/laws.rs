//! What the readers make of the entries of a file.

use vstd::prelude::*;

use crate::error::ErrorView;
use crate::format::e2store;
use crate::format::e2store::EntryView;
use crate::format::era;
use crate::format::era1;
use crate::format::era1::U256;
use crate::format::laws as layout;
use crate::format::types;
use crate::read::block::{BlockView, Era1AssemblyView, Era1BlockView, EraBlockReaderView};
use crate::read::random;
use crate::read::random::EraRandomReaderView;
use crate::read::typed;
use crate::read::typed::{EraFormat, EraReaderView, TypedEntryView};

verus! {

/// An ERA1 block as it stands in a file: the compressed header, the body, the
/// receipts, which may be missing, and the total difficulty.
pub struct Era1Group {
    pub header: Seq<u8>,
    pub body: Seq<u8>,
    pub receipts: Option<Seq<u8>>,
    pub total_difficulty: U256,
}

impl Era1Group {
    /// Every part has room in an entry, and the header decompresses.
    pub open spec fn wf(self) -> bool {
        &&& self.header.len() <= u32::MAX
        &&& self.body.len() <= u32::MAX
        &&& self.receipts matches Some(r) ==> r.len() <= u32::MAX
        &&& era::snappy_decoded(self.header) is Ok
    }

    /// The receipts, if there are any.
    pub open spec fn receipt_entries(self) -> Seq<EntryView> {
        match self.receipts {
            Some(r) => seq![e2store::entry_of(types::TYPE_COMPRESSED_RECEIPTS, r)],
            None => Seq::empty(),
        }
    }

    /// The entries after the header.
    pub open spec fn parts(self) -> Seq<EntryView> {
        seq![e2store::entry_of(types::TYPE_COMPRESSED_BODY, self.body)] + self.receipt_entries()
            + seq![e2store::entry_of(types::TYPE_TOTAL_DIFFICULTY, self.total_difficulty.0@)]
    }

    /// The entry of the header.
    pub open spec fn header_entry(self) -> EntryView {
        e2store::entry_of(types::TYPE_COMPRESSED_HEADER, self.header)
    }

    /// The block that the entries stand for.
    pub open spec fn block(self) -> Era1BlockView {
        Era1BlockView {
            header: era::snappy_decoded(self.header)->Ok_0,
            body: self.body,
            receipts: match self.receipts {
                Some(r) => r,
                None => Seq::empty(),
            },
            total_difficulty: self.total_difficulty,
        }
    }
}

/// The entries of the groups from `j` on.
pub open spec fn group_entries(groups: Seq<Era1Group>, j: int) -> Seq<EntryView>
    decreases groups.len() - j,
{
    if j >= groups.len() {
        Seq::empty()
    } else {
        seq![groups[j].header_entry()] + groups[j].parts() + group_entries(groups, j + 1)
    }
}

/// The blocks of the groups from `j` on.
pub open spec fn group_blocks(groups: Seq<Era1Group>, j: int) -> Seq<BlockView>
    decreases groups.len() - j,
{
    if j >= groups.len() {
        Seq::empty()
    } else {
        seq![BlockView::Era1(groups[j].block())] + group_blocks(groups, j + 1)
    }
}

/// Whether the block reader passes over an entry: an index that decodes, an
/// accumulator, or an entry of no known type.
pub open spec fn passed_over(e: EntryView) -> bool {
    let typ = e.header.typ;
    &&& e.wf()
    &&& !typed::compressed_type(typ)
    &&& typ != types::TYPE_COMPRESSED_BODY
    &&& typ != types::TYPE_COMPRESSED_RECEIPTS
    &&& typ != types::TYPE_TOTAL_DIFFICULTY
    &&& typ == types::TYPE_ACCUMULATOR ==> e.data.len() == 32
    &&& (typ == types::TYPE_BLOCK_INDEX || typ == types::TYPE_STATE_INDEX || typ
        == types::TYPE_SLOT_INDEX) ==> era::slot_index_of(e.data) is Ok
}

/// The entries of an ERA1 file: the version, the blocks, and entries that the
/// block reader passes over.
pub open spec fn era1_file(groups: Seq<Era1Group>, tail: Seq<EntryView>) -> Seq<EntryView> {
    seq![e2store::entry_of(types::TYPE_VERSION, Seq::empty())] + group_entries(groups, 0) + tail
}

/// Reading the parts of an ERA1 block after its header gives the whole block,
/// if what follows is no part of a block.
pub proof fn era1_block_assembled(g: Era1Group, rest: Seq<EntryView>)
    requires
        g.wf(),
        rest.len() > 0 ==> rest[0].wf() && rest[0].header.typ != types::TYPE_COMPRESSED_BODY
            && rest[0].header.typ != types::TYPE_COMPRESSED_RECEIPTS && rest[0].header.typ
            != types::TYPE_TOTAL_DIFFICULTY,
    ensures
        random::full_block(
            random::header_only(era::snappy_decoded(g.header)->Ok_0),
            e2store::file_bytes(g.parts() + rest),
        ) == Ok::<Era1BlockView, ErrorView>(g.block()),
{
    types::lemma_type_codes();
    typed::lemma_word(g.total_difficulty.0);
    let list = g.parts() + rest;
    let b0 = random::header_only(era::snappy_decoded(g.header)->Ok_0);
    let b1 = Era1BlockView { body: g.body, ..b0 };
    lemma_block_part(b0, list);
    let list1 = list.skip(1);
    match g.receipts {
        Some(r) => {
            let b2 = Era1BlockView { receipts: r, ..b1 };
            lemma_block_part(b1, list1);
            let list2 = list1.skip(1);
            lemma_block_part(b2, list2);
            assert(list2.skip(1) =~= rest);
        },
        None => {
            lemma_block_part(b1, list1);
            assert(list1.skip(1) =~= rest);
        },
    }
    if rest.len() > 0 {
        lemma_block_part(g.block(), rest);
    } else {
        assert(e2store::file_bytes(rest) =~= Seq::empty());
    }
}

proof fn lemma_block_part(b: Era1BlockView, list: Seq<EntryView>)
    requires
        list.len() > 0,
        list[0].wf(),
    ensures
        ({
            let e = list[0];
            let rest = e2store::file_bytes(list.skip(1));
            let here = random::full_block(b, e2store::file_bytes(list));
            &&& e.header.typ == types::TYPE_COMPRESSED_BODY ==> here == random::full_block(
                Era1BlockView { body: e.data, ..b },
                rest,
            )
            &&& e.header.typ == types::TYPE_COMPRESSED_RECEIPTS ==> here == random::full_block(
                Era1BlockView { receipts: e.data, ..b },
                rest,
            )
            &&& e.header.typ == types::TYPE_TOTAL_DIFFICULTY && e.data.len() == 32 ==> here
                == random::full_block(
                Era1BlockView { total_difficulty: U256(typed::word_of(e.data)), ..b },
                rest,
            )
            &&& e.header.typ != types::TYPE_COMPRESSED_BODY && e.header.typ
                != types::TYPE_COMPRESSED_RECEIPTS && e.header.typ != types::TYPE_TOTAL_DIFFICULTY
                ==> here == Ok::<Era1BlockView, ErrorView>(b)
        }),
{
    types::lemma_type_codes();
    e2store::lemma_file_first(list);
    e2store::entry_read_back(list[0], e2store::file_bytes(list.skip(1)));
}

/// Whether an entry can be decoded: compressed data decompresses, an index is
/// one, and a total difficulty or an accumulator has 32 bytes.
pub open spec fn decodable(e: EntryView) -> bool {
    let typ = e.header.typ;
    &&& typed::compressed_type(typ) ==> era::snappy_decoded(e.data) is Ok
    &&& (typ == types::TYPE_BLOCK_INDEX || typ == types::TYPE_STATE_INDEX || typ
        == types::TYPE_SLOT_INDEX) ==> era::slot_index_of(e.data) is Ok
    &&& (typ == types::TYPE_TOTAL_DIFFICULTY || typ == types::TYPE_ACCUMULATOR) ==> e.data.len()
        == 32
}

/// Whether one of the entries from the one after the version up to `n` is a
/// generic slot index.
pub open spec fn slot_index_before(entries: Seq<EntryView>, n: int) -> bool {
    exists|k: int|
        1 <= k < n && (#[trigger] entries[k]).header.typ == types::TYPE_SLOT_INDEX
}

/// What the entry at `i` of a file decodes to: a generic slot index to a block
/// index if it is the first, and else to a state index.
pub open spec fn decoded_at(entries: Seq<EntryView>, i: int) -> Result<TypedEntryView, ErrorView> {
    typed::typed_of(typed::index_resolved(entries[i], slot_index_before(entries, i)))
}

/// An entry decodes if and only if it can be decoded, and to what it stands for
/// by itself if it is no generic slot index.
pub proof fn decoding_succeeds(entries: Seq<EntryView>, i: int)
    ensures
        decoded_at(entries, i) is Ok <==> decodable(entries[i]),
        entries[i].header.typ != types::TYPE_SLOT_INDEX ==> decoded_at(entries, i)
            == typed::typed_of(entries[i]),
{
    types::lemma_type_codes();
}

/// Whether a reader stands before the entry at `i` of a file that holds
/// `entries` and can be read to its end.
pub open spec fn stands_at(v: EraReaderView, entries: Seq<EntryView>, i: int) -> bool {
    &&& v.version_consumed
    &&& 1 <= i <= entries.len()
    &&& v.slot_index_seen == slot_index_before(entries, i)
    &&& e2store::stream_entries(v.rest) == entries.skip(i)
    &&& e2store::stream_failure(v.rest) is None
}

/// What a reader finds before the entry at `i`.
pub proof fn lemma_stands_at(v: EraReaderView, entries: Seq<EntryView>, i: int)
    requires
        stands_at(v, entries, i),
    ensures
        i < entries.len() ==> v.next() == (match decoded_at(entries, i) {
            Ok(t) => Ok::<Option<TypedEntryView>, ErrorView>(Some(t)),
            Err(e) => Err(e),
        }) && stands_at(v.after(), entries, i + 1) && v.after().rest.len() < v.rest.len(),
        i == entries.len() ==> v.next() == Ok::<Option<TypedEntryView>, ErrorView>(None)
            && stands_at(v.after(), entries, i),
{
    let list = entries.skip(i);
    match e2store::next_entry_of(v.rest) {
        Ok(Some(e)) => {
            assert(list[0] == e);
            assert(entries[i] == e);
            let rest = e2store::stream_entries(e2store::after_entry(v.rest));
            assert(list.skip(1) =~= rest);
            assert(entries.skip(i + 1) =~= list.skip(1));
            assert(slot_index_before(entries, i + 1) == (slot_index_before(entries, i)
                || e.header.typ == types::TYPE_SLOT_INDEX)) by {
                if slot_index_before(entries, i) {
                    let k = choose|k: int|
                        1 <= k < i && (#[trigger] entries[k]).header.typ == types::TYPE_SLOT_INDEX;
                    assert(entries[k].header.typ == types::TYPE_SLOT_INDEX);
                }
                if e.header.typ == types::TYPE_SLOT_INDEX {
                    assert(entries[i].header.typ == types::TYPE_SLOT_INDEX);
                }
            }
        },
        _ => {
            assert(list.len() == 0);
        },
    }
}

/// The start of a file that can be read to its end.
pub proof fn lemma_at_first(data: Seq<u8>)
    requires
        e2store::all_entries_of(data) is Ok,
    ensures
        stands_at(
            EraReaderView::start(data).past_version(),
            e2store::all_entries_of(data)->Ok_0,
            1,
        ),
        EraReaderView::start(data).next() == EraReaderView::start(data).past_version().next(),
        EraReaderView::start(data).after() == EraReaderView::start(data).past_version().after(),
{
    let entries = e2store::all_entries_of(data)->Ok_0;
    let rest = e2store::stream_entries(e2store::after_entry(data));
    assert(entries.skip(1) =~= rest);
}

/// Reading on from the entry at `i`.
proof fn lemma_typed_on(v: EraReaderView, entries: Seq<EntryView>, i: int)
    requires
        stands_at(v, entries, i),
    ensures
        v.failure() is None <==> forall|k: int|
            i <= k < entries.len() ==> (#[trigger] decoded_at(entries, k)) is Ok,
        v.failure() is None ==> v.entries().len() == entries.len() - i && forall|k: int|
            i <= k < entries.len() ==> #[trigger] decoded_at(entries, k) == Ok::<
                TypedEntryView,
                ErrorView,
            >(v.entries()[k - i]),
    decreases entries.len() - i,
{
    lemma_stands_at(v, entries, i);
    if i < entries.len() {
        let w = v.after();
        lemma_typed_on(w, entries, i + 1);
        match decoded_at(entries, i) {
            Ok(t) => {
                assert(v.entries() == seq![t] + w.entries());
                assert(v.failure() == w.failure());
                if w.failure() is None {
                    assert forall|k: int| i <= k < entries.len() implies #[trigger] decoded_at(
                        entries,
                        k,
                    ) == Ok::<TypedEntryView, ErrorView>(v.entries()[k - i]) by {
                        if k > i {
                            assert(v.entries()[k - i] == w.entries()[k - (i + 1)]);
                        }
                    }
                }
            },
            Err(e) => {
                assert(v.failure() == Some(e));
                assert(decoded_at(entries, i) is Err);
            },
        }
    }
}

/// The typed entries of a file are its raw entries after the version, decoded
/// one by one in order. Reading them succeeds if and only if each can be
/// decoded.
pub proof fn typed_entries_agree(data: Seq<u8>)
    requires
        e2store::all_entries_of(data) is Ok,
    ensures
        ({
            let raw = e2store::all_entries_of(data)->Ok_0;
            let typed = EraReaderView::start(data).entries();
            let failure = EraReaderView::start(data).failure();
            &&& failure is None <==> forall|i: int|
                1 <= i < raw.len() ==> decodable(#[trigger] raw[i])
            &&& failure is None ==> typed.len() == raw.len() - 1 && forall|i: int|
                0 <= i < typed.len() ==> decoded_at(raw, i + 1) == Ok::<TypedEntryView, ErrorView>(
                    #[trigger] typed[i],
                )
        }),
{
    let raw = e2store::all_entries_of(data)->Ok_0;
    let start = EraReaderView::start(data);
    let first = start.past_version();
    lemma_at_first(data);
    lemma_typed_on(first, raw, 1);
    assert(start.entries() == first.entries());
    assert(start.failure() == first.failure());
    assert forall|i: int| 1 <= i < raw.len() implies decodable(#[trigger] raw[i]) == (decoded_at(
        raw,
        i,
    ) is Ok) by {
        decoding_succeeds(raw, i);
    }
    if start.failure() is None {
        assert forall|i: int| 1 <= i < raw.len() implies decodable(#[trigger] raw[i]) by {
            assert(decoded_at(raw, i) is Ok);
        }
        let typed = start.entries();
        assert forall|i: int| 0 <= i < typed.len() implies decoded_at(raw, i + 1) == Ok::<
            TypedEntryView,
            ErrorView,
        >(#[trigger] typed[i]) by {
            assert(decoded_at(raw, i + 1) == Ok::<TypedEntryView, ErrorView>(
                first.entries()[(i + 1) - 1],
            ));
        }
    } else {
        let k = choose|k: int| 1 <= k < raw.len() && !((#[trigger] decoded_at(raw, k)) is Ok);
        assert(!decodable(raw[k]));
    }
}

/// Where the first ERA1 header from `i` on is, or the end.
pub open spec fn next_header(entries: Seq<EntryView>, i: int) -> int
    decreases entries.len() - i,
{
    if i >= entries.len() {
        entries.len() as int
    } else if entries[i].header.typ == types::TYPE_COMPRESSED_HEADER {
        i
    } else {
        next_header(entries, i + 1)
    }
}

/// The data of the last entry of type `typ` among those from `from` up to `to`.
pub open spec fn last_part(entries: Seq<EntryView>, typ: [u8; 2], from: int, to: int) -> Option<
    Seq<u8>,
>
    decreases to - from,
{
    if to <= from {
        None
    } else if entries[to - 1].header.typ == typ {
        Some(entries[to - 1].data)
    } else {
        last_part(entries, typ, from, to - 1)
    }
}

/// The total difficulty that an entry's data stands for.
pub open spec fn difficulty(data: Option<Seq<u8>>) -> Option<U256> {
    match data {
        Some(data) => Some(U256(typed::word_of(data))),
        None => None,
    }
}

/// The parts of the block whose header is at `h`, up to the entry at `i`: of
/// each part the last.
pub open spec fn parts_up_to(entries: Seq<EntryView>, h: int, i: int) -> Era1AssemblyView {
    Era1AssemblyView {
        header: Some(era::snappy_decoded(entries[h].data)->Ok_0),
        body: last_part(entries, types::TYPE_COMPRESSED_BODY, h + 1, i),
        receipts: last_part(entries, types::TYPE_COMPRESSED_RECEIPTS, h + 1, i),
        total_difficulty: difficulty(
            last_part(entries, types::TYPE_TOTAL_DIFFICULTY, h + 1, i),
        ),
    }
}

/// The block whose header is at `h`: the decompressed header, and the last body,
/// receipts and total difficulty before the next header.
pub open spec fn era1_block_at(entries: Seq<EntryView>, h: int) -> BlockView {
    let next = next_header(entries, h + 1);
    let body = last_part(entries, types::TYPE_COMPRESSED_BODY, h + 1, next);
    let receipts = last_part(entries, types::TYPE_COMPRESSED_RECEIPTS, h + 1, next);
    let td = last_part(entries, types::TYPE_TOTAL_DIFFICULTY, h + 1, next);
    BlockView::Era1(
        Era1BlockView {
            header: era::snappy_decoded(entries[h].data)->Ok_0,
            body: if body is Some {
                body->Some_0
            } else {
                Seq::empty()
            },
            receipts: if receipts is Some {
                receipts->Some_0
            } else {
                Seq::empty()
            },
            total_difficulty: if td is Some {
                U256(typed::word_of(td->Some_0))
            } else {
                era1::zero_difficulty()
            },
        },
    )
}

/// The blocks whose headers are among the entries from `i` on, in order.
pub open spec fn era1_blocks_of(entries: Seq<EntryView>, i: int) -> Seq<BlockView>
    decreases entries.len() - i,
{
    if i >= entries.len() {
        Seq::empty()
    } else if entries[i].header.typ == types::TYPE_COMPRESSED_HEADER {
        seq![era1_block_at(entries, i)] + era1_blocks_of(entries, i + 1)
    } else {
        era1_blocks_of(entries, i + 1)
    }
}

/// Whether the block reader makes only ERA1 blocks of an entry, and can decode
/// it.
pub open spec fn era1_entry(e: EntryView) -> bool {
    decodable(e) && e.header.typ != types::TYPE_COMPRESSED_SIGNED_BEACON_BLOCK
}

/// Whether the parts that are pending before the entry at `i` are those of the
/// block whose header is at `h`.
spec fn pending_of(p: Era1AssemblyView, entries: Seq<EntryView>, h: int, i: int) -> bool {
    &&& 1 <= h < i
    &&& p == parts_up_to(entries, h, i)
    &&& next_header(entries, h + 1) == next_header(entries, i)
}

/// What the entry at `i` does to the pending parts.
proof fn lemma_pending(p: Era1AssemblyView, entries: Seq<EntryView>, h: int, i: int)
    requires
        1 <= i < entries.len(),
        era1_entry(entries[i]),
        p.header is Some ==> pending_of(p, entries, h, i),
    ensures
        decoded_at(entries, i) is Ok,
        ({
            let t = decoded_at(entries, i)->Ok_0;
            if entries[i].header.typ == types::TYPE_COMPRESSED_HEADER {
                &&& pending_of(p.with(t), entries, i, i + 1)
                &&& p.with(t).header is Some
                &&& p.completed_by(t) == p.block()
                &&& p.header is Some ==> p.block() == Some(era1_block_at(entries, h))
            } else {
                &&& p.completed_by(t) is None
                &&& p.with(t).header == p.header
                &&& p.header is Some ==> pending_of(p.with(t), entries, h, i + 1)
            }
        }),
{
    types::lemma_type_codes();
    decoding_succeeds(entries, i);
    let t = decoded_at(entries, i)->Ok_0;
    let e = entries[i];
    if e.header.typ == types::TYPE_COMPRESSED_HEADER {
        assert(p.with(t) =~= parts_up_to(entries, i, i + 1));
    } else if p.header is Some {
        assert(p.with(t) =~= parts_up_to(entries, h, i + 1));
    }
}

/// The beacon blocks among the entries from `i` on, decompressed, in order.
pub open spec fn beacon_blocks_of(entries: Seq<EntryView>, i: int) -> Seq<BlockView>
    decreases entries.len() - i,
{
    if i >= entries.len() {
        Seq::empty()
    } else if layout::has_code(entries[i].header.typ, 0x01, 0x00) {
        seq![BlockView::Era(era::snappy_decoded(entries[i].data)->Ok_0)] + beacon_blocks_of(
            entries,
            i + 1,
        )
    } else {
        beacon_blocks_of(entries, i + 1)
    }
}

/// Whether a block is a beacon block.
pub open spec fn beacon() -> spec_fn(BlockView) -> bool {
    |b: BlockView| b is Era
}

/// Whether a block is an ERA1 block.
pub open spec fn execution() -> spec_fn(BlockView) -> bool {
    |b: BlockView| b is Era1
}

/// Picking blocks out of a list, by its first block.
proof fn lemma_pick(b: BlockView, rest: Seq<BlockView>, p: spec_fn(BlockView) -> bool)
    ensures
        (seq![b] + rest).filter(p) == (if p(b) {
            seq![b]
        } else {
            Seq::empty()
        }) + rest.filter(p),
{
    let none = Seq::<BlockView>::empty();
    Seq::filter_distributes_over_add(seq![b], rest, p);
    none.lemma_filter_push(b, p);
    assert(none.push(b) =~= seq![b]);
    reveal(Seq::filter);
    assert(none.filter(p) =~= none);
    assert(none + rest.filter(p) =~= rest.filter(p));
}

/// The pending block comes before those that follow.
spec fn pending_first(v: EraBlockReaderView, entries: Seq<EntryView>, h: int) -> Seq<BlockView> {
    if v.pending.header is Some {
        seq![era1_block_at(entries, h)]
    } else {
        Seq::empty()
    }
}

/// The block reader on entries that can be decoded.
#[verifier::spinoff_prover]
proof fn lemma_blocks_on(v: EraBlockReaderView, entries: Seq<EntryView>, h: int, i: int)
    requires
        stands_at(v.inner, entries, i),
        forall|k: int| 1 <= k < entries.len() ==> decodable(#[trigger] entries[k]),
        v.pending.header is Some ==> pending_of(v.pending, entries, h, i),
    ensures
        v.failure() is None,
        v.blocks().filter(beacon()) == beacon_blocks_of(entries, i),
        v.blocks().filter(execution()) == pending_first(v, entries, h) + era1_blocks_of(entries, i),
    decreases entries.len() - i,
{
    let none = Seq::<BlockView>::empty();
    assert(none.filter(beacon()) =~= none) by {
        reveal(Seq::filter);
    }
    assert(none.filter(execution()) =~= none) by {
        reveal(Seq::filter);
    }
    lemma_stands_at(v.inner, entries, i);
    let first = pending_first(v, entries, h);
    if i == entries.len() {
        let w = v.after();
        lemma_stands_at(w.inner, entries, i);
        assert(v.next() == Ok::<Option<BlockView>, ErrorView>(v.pending.block()));
        if v.pending.header is Some {
            let b = era1_block_at(entries, h);
            assert(v.pending.block() == Some(b));
            assert(w.next() == Ok::<Option<BlockView>, ErrorView>(None));
            assert(w.blocks() =~= none);
            assert(w.failure() is None);
            assert(v.failure() == w.failure());
            assert(v.blocks() == seq![b] + none);
            lemma_pick(b, none, beacon());
            lemma_pick(b, none, execution());
        } else {
            assert(v.blocks() =~= none);
            assert(v.failure() is None);
        }
        assert(beacon_blocks_of(entries, i) =~= none);
        assert(era1_blocks_of(entries, i) =~= none);
        assert(first + none =~= first);
        assert(none + none =~= none);
    } else {
        let e = entries[i];
        assert(decodable(e));
        layout::type_codes(e.header.typ);
        let t = decoded_at(entries, i)->Ok_0;
        decoding_succeeds(entries, i);
        let w = v.step(t);
        if e.header.typ == types::TYPE_COMPRESSED_SIGNED_BEACON_BLOCK {
            types::lemma_type_codes();
            let b = BlockView::Era(era::snappy_decoded(e.data)->Ok_0);
            assert(t == TypedEntryView::BeaconBlock { data: era::snappy_decoded(e.data)->Ok_0 });
            assert(v.next() == Ok::<Option<BlockView>, ErrorView>(Some(b)));
            assert(v.after() == w);
            assert(w.pending == v.pending);
            if v.pending.header is Some {
                assert(parts_up_to(entries, h, i) =~= parts_up_to(entries, h, i + 1));
            }
            lemma_blocks_on(w, entries, h, i + 1);
            assert(v.failure() == w.failure());
            assert(v.blocks() == seq![b] + w.blocks());
            lemma_pick(b, w.blocks(), beacon());
            lemma_pick(b, w.blocks(), execution());
            assert(none + w.blocks().filter(execution()) =~= w.blocks().filter(execution()));
        } else {
            lemma_pending(v.pending, entries, h, i);
            if e.header.typ == types::TYPE_COMPRESSED_HEADER {
                lemma_blocks_on(w, entries, i, i + 1);
                if v.pending.header is Some {
                    let b = era1_block_at(entries, h);
                    assert(v.next() == Ok::<Option<BlockView>, ErrorView>(Some(b)));
                    assert(v.after() == w);
                    assert(v.failure() == w.failure());
                    assert(v.blocks() == seq![b] + w.blocks());
                    lemma_pick(b, w.blocks(), beacon());
                    lemma_pick(b, w.blocks(), execution());
                    assert(none + w.blocks().filter(beacon()) =~= w.blocks().filter(beacon()));
                } else {
                    assert(v.next() == w.next());
                    assert(v.after() == w.after());
                    assert(v.blocks() == w.blocks());
                    assert(v.failure() == w.failure());
                    assert(none + w.blocks().filter(execution()) =~= w.blocks().filter(execution()));
                }
            } else {
                lemma_blocks_on(w, entries, h, i + 1);
                assert(v.next() == w.next());
                assert(v.after() == w.after());
                assert(v.blocks() == w.blocks());
                assert(v.failure() == w.failure());
            }
        }
    }
}

/// The block reader starts after the version.
proof fn lemma_blocks_start(data: Seq<u8>)
    requires
        e2store::all_entries_of(data) is Ok,
        forall|i: int|
            1 <= i < e2store::all_entries_of(data)->Ok_0.len() ==> decodable(
                #[trigger] e2store::all_entries_of(data)->Ok_0[i],
            ),
    ensures
        ({
            let raw = e2store::all_entries_of(data)->Ok_0;
            let start = EraBlockReaderView::start(data);
            &&& start.failure() is None
            &&& start.blocks().filter(beacon()) == beacon_blocks_of(raw, 1)
            &&& start.blocks().filter(execution()) == era1_blocks_of(raw, 1)
        }),
{
    let raw = e2store::all_entries_of(data)->Ok_0;
    let start = EraBlockReaderView::start(data);
    let first = EraBlockReaderView { inner: start.inner.past_version(), ..start };
    lemma_at_first(data);
    lemma_blocks_on(first, raw, 0, 1);
    assert(start.next() == first.next());
    assert(start.after() == first.after());
    assert(start.blocks() == first.blocks());
    assert(start.failure() == first.failure());
    assert(Seq::<BlockView>::empty() + era1_blocks_of(raw, 1) =~= era1_blocks_of(raw, 1));
}

/// A list of which nothing of one kind can be picked is all of the other kind.
proof fn lemma_one_kind(s: Seq<BlockView>)
    ensures
        s.filter(beacon()).len() == 0 ==> s.filter(execution()) == s,
        s.filter(execution()).len() == 0 ==> s.filter(beacon()) == s,
        s.filter(beacon()).len() + s.filter(execution()).len() == s.len(),
    decreases s.len(),
{
    reveal(Seq::filter);
    if s.len() > 0 {
        lemma_one_kind(s.drop_last());
        assert(s.drop_last().push(s.last()) =~= s);
    } else {
        assert(s.filter(execution()) =~= s);
        assert(s.filter(beacon()) =~= s);
    }
}

proof fn lemma_no_beacon(entries: Seq<EntryView>, i: int)
    requires
        0 <= i,
        forall|k: int|
            i <= k < entries.len() ==> !layout::has_code(
                (#[trigger] entries[k]).header.typ,
                0x01,
                0x00,
            ),
    ensures
        beacon_blocks_of(entries, i).len() == 0,
    decreases entries.len() - i,
{
    if i < entries.len() {
        lemma_no_beacon(entries, i + 1);
    }
}

/// Streaming a file whose entries can be decoded gives its beacon blocks in
/// order, and its ERA1 blocks in order, and nothing else.
pub proof fn blocks_streamed(data: Seq<u8>)
    requires
        e2store::all_entries_of(data) is Ok,
        forall|i: int|
            1 <= i < e2store::all_entries_of(data)->Ok_0.len() ==> decodable(
                #[trigger] e2store::all_entries_of(data)->Ok_0[i],
            ),
    ensures
        ({
            let raw = e2store::all_entries_of(data)->Ok_0;
            let blocks = EraBlockReaderView::start(data).blocks();
            &&& EraBlockReaderView::start(data).failure() is None
            &&& blocks.filter(beacon()) == beacon_blocks_of(raw, 1)
            &&& blocks.filter(execution()) == era1_blocks_of(raw, 1)
            &&& blocks.len() == beacon_blocks_of(raw, 1).len() + era1_blocks_of(raw, 1).len()
        }),
{
    lemma_blocks_start(data);
    lemma_one_kind(EraBlockReaderView::start(data).blocks());
}

/// Streaming blocks fails where reading typed entries fails, and in the same way.
pub proof fn block_failure_agrees(v: EraBlockReaderView)
    ensures
        v.failure() == v.inner.failure(),
    decreases v.measure(),
{
    crate::read::block::lemma_after_block(v);
    lemma_block_step(v);
    match v.next() {
        Ok(Some(_)) => {
            block_failure_agrees(v.after());
        },
        _ => {},
    }
}

/// Delivering a block leaves the failure that is to come as it is.
proof fn lemma_block_step(v: EraBlockReaderView)
    ensures
        match v.next() {
            Ok(Some(_)) => v.after().inner.failure() == v.inner.failure(),
            Ok(None) => v.inner.failure() is None,
            Err(e) => v.inner.failure() == Some(e),
        },
    decreases v.inner.rest.len(),
{
    match v.inner.next() {
        Ok(Some(entry)) => {
            if v.pending.completed_by(entry) is None {
                lemma_block_step(v.step(entry));
            }
        },
        Ok(None) => {
            // The end stays the end
            assert(v.inner.after().next() == Ok::<Option<TypedEntryView>, ErrorView>(None));
        },
        Err(_) => {},
    }
}

/// Streaming a file without beacon blocks whose entries can be decoded gives one
/// block for each ERA1 header, in order, the last one included, with the last
/// body, receipts and total difficulty that stand between it and the next
/// header. What stands before the first header enters no block.
pub proof fn era1_blocks_assembled(data: Seq<u8>)
    requires
        e2store::all_entries_of(data) is Ok,
        ({
            let raw = e2store::all_entries_of(data)->Ok_0;
            forall|i: int| 1 <= i < raw.len() ==> era1_entry(#[trigger] raw[i])
        }),
    ensures
        EraBlockReaderView::start(data).blocks() == era1_blocks_of(
            e2store::all_entries_of(data)->Ok_0,
            1,
        ),
        EraBlockReaderView::start(data).failure() is None,
{
    let raw = e2store::all_entries_of(data)->Ok_0;
    assert forall|i: int| 1 <= i < raw.len() implies decodable(#[trigger] raw[i])
        && !layout::has_code(raw[i].header.typ, 0x01, 0x00) by {
        assert(era1_entry(raw[i]));
        layout::type_codes(raw[i].header.typ);
    }
    lemma_blocks_start(data);
    lemma_no_beacon(raw, 1);
    lemma_one_kind(EraBlockReaderView::start(data).blocks());
}

/// When there is no block left, further calls deliver none either.
pub proof fn blocks_end(v: EraBlockReaderView)
    requires
        v.next() == Ok::<Option<BlockView>, ErrorView>(None),
    ensures
        v.after().next() == Ok::<Option<BlockView>, ErrorView>(None),
    decreases v.inner.rest.len(),
{
    match v.inner.next() {
        Ok(Some(entry)) => {
            blocks_end(v.step(entry));
        },
        _ => {},
    }
}

/// Entries that are no headers start no block.
proof fn lemma_no_header(entries: Seq<EntryView>, i: int, end: int)
    requires
        0 <= i <= end <= entries.len(),
        forall|k: int|
            i <= k < end ==> (#[trigger] entries[k]).header.typ != types::TYPE_COMPRESSED_HEADER,
    ensures
        next_header(entries, i) == next_header(entries, end),
        era1_blocks_of(entries, i) == era1_blocks_of(entries, end),
    decreases end - i,
{
    if i < end {
        lemma_no_header(entries, i + 1, end);
    }
}

/// Entries of other types leave a part alone.
proof fn lemma_no_part(entries: Seq<EntryView>, typ: [u8; 2], from: int, end: int, to: int)
    requires
        0 <= from <= end <= to <= entries.len(),
        forall|k: int| end <= k < to ==> (#[trigger] entries[k]).header.typ != typ,
    ensures
        last_part(entries, typ, from, to) == last_part(entries, typ, from, end),
    decreases to - end,
{
    if end < to {
        lemma_no_part(entries, typ, from, end, to - 1);
    }
}

/// The parts of a group are those of its block.
proof fn lemma_group_parts(entries: Seq<EntryView>, g: Era1Group, h: int)
    requires
        g.wf(),
        0 <= h,
        h + 1 + g.parts().len() <= entries.len(),
        entries[h] == g.header_entry(),
        forall|k: int|
            0 <= k < g.parts().len() ==> entries[h + 1 + k] == #[trigger] g.parts()[k],
    ensures
        parts_up_to(entries, h, h + 1 + g.parts().len()).block() == Some(
            BlockView::Era1(g.block()),
        ),
{
    types::lemma_type_codes();
    typed::lemma_word(g.total_difficulty.0);
    reveal_with_fuel(last_part, 4);
    let parts = g.parts();
    assert(entries[h + 1] == parts[0]);
    assert(entries[h + 2] == parts[1]);
    if g.receipts is Some {
        assert(entries[h + 3] == parts[2]);
    }
}

/// The blocks of the groups from `j` on, which start at `p`.
proof fn lemma_groups_at(
    entries: Seq<EntryView>,
    groups: Seq<Era1Group>,
    tail: Seq<EntryView>,
    j: int,
    p: int,
)
    requires
        forall|i: int| 0 <= i < groups.len() ==> (#[trigger] groups[i]).wf(),
        forall|i: int| 0 <= i < tail.len() ==> passed_over(#[trigger] tail[i]),
        0 <= j <= groups.len(),
        0 <= p <= entries.len(),
        entries.skip(p) == group_entries(groups, j) + tail,
    ensures
        era1_blocks_of(entries, p) == group_blocks(groups, j),
    decreases groups.len() - j,
{
    types::lemma_type_codes();
    let end = entries.len() as int;
    let list = group_entries(groups, j) + tail;
    if j == groups.len() {
        assert forall|k: int| p <= k < end implies (#[trigger] entries[k]).header.typ
            != types::TYPE_COMPRESSED_HEADER by {
            assert(entries[k] == entries.skip(p)[k - p]);
            assert(passed_over(tail[k - p]));
        }
        lemma_no_header(entries, p, end);
    } else {
        let g = groups[j];
        let parts = g.parts();
        let rest = group_entries(groups, j + 1) + tail;
        let q = p + 1 + parts.len();
        assert(g.wf());
        assert(list =~= seq![g.header_entry()] + parts + rest);
        assert(entries[p] == entries.skip(p)[0]);
        assert forall|k: int| 0 <= k < parts.len() implies entries[p + 1 + k]
            == #[trigger] parts[k] by {
            assert(entries[p + 1 + k] == entries.skip(p)[1 + k]);
        }
        assert(entries.skip(q) =~= rest) by {
            assert forall|k: int| 0 <= k < rest.len() implies entries.skip(q)[k] == rest[k] by {
                assert(entries[q + k] == entries.skip(p)[1 + parts.len() + k]);
            }
        }
        lemma_groups_at(entries, groups, tail, j + 1, q);
        assert forall|k: int| p + 1 <= k < q implies (#[trigger] entries[k]).header.typ
            != types::TYPE_COMPRESSED_HEADER by {
            assert(entries[k] == parts[k - p - 1]);
        }
        lemma_no_header(entries, p + 1, q);
        lemma_group_parts(entries, g, p);
        let next = next_header(entries, q);
        if j + 1 < groups.len() {
            assert(groups[j + 1].wf());
            assert(entries[q] == entries.skip(q)[0]);
            assert(rest[0] == groups[j + 1].header_entry());
            assert(next == q);
        } else {
            assert(rest =~= tail);
            assert forall|k: int| q <= k < end implies passed_over(#[trigger] entries[k]) by {
                assert(entries[k] == entries.skip(q)[k - q]);
                assert(passed_over(tail[k - q]));
            }
            lemma_no_header(entries, q, end);
            assert(next == end);
            lemma_no_part(entries, types::TYPE_COMPRESSED_BODY, p + 1, q, end);
            lemma_no_part(entries, types::TYPE_COMPRESSED_RECEIPTS, p + 1, q, end);
            lemma_no_part(entries, types::TYPE_TOTAL_DIFFICULTY, p + 1, q, end);
        }
        assert(parts_up_to(entries, p, next) == parts_up_to(entries, p, q));
        assert(era1_block_at(entries, p) == BlockView::Era1(g.block()));
    }
}

/// The entries of groups are ERA1 entries.
pub proof fn lemma_group_entries(groups: Seq<Era1Group>, j: int)
    requires
        forall|i: int| 0 <= i < groups.len() ==> (#[trigger] groups[i]).wf(),
        0 <= j,
    ensures
        forall|k: int|
            0 <= k < group_entries(groups, j).len() ==> (#[trigger] group_entries(groups, j)[k]).wf()
                && era1_entry(group_entries(groups, j)[k]),
    decreases groups.len() - j,
{
    types::lemma_type_codes();
    if j < groups.len() {
        let g = groups[j];
        assert(g.wf());
        lemma_group_entries(groups, j + 1);
        let all = group_entries(groups, j);
        let front = seq![g.header_entry()] + g.parts();
        let rest = group_entries(groups, j + 1);
        assert(all =~= front + rest);
        assert forall|k: int| 0 <= k < all.len() implies (#[trigger] all[k]).wf() && era1_entry(
            all[k],
        ) by {
            if k < front.len() {
                assert(all[k] == front[k]);
            } else {
                assert(all[k] == rest[k - front.len()]);
            }
        }
    }
}

/// Streaming an ERA1 file whose headers decompress gives all its blocks in
/// order, each with its own body, receipts and total difficulty.
pub proof fn era1_blocks_streamed(groups: Seq<Era1Group>, tail: Seq<EntryView>)
    requires
        forall|i: int| 0 <= i < groups.len() ==> (#[trigger] groups[i]).wf(),
        forall|i: int| 0 <= i < tail.len() ==> passed_over(#[trigger] tail[i]),
    ensures
        EraBlockReaderView::start(e2store::file_bytes(era1_file(groups, tail))).blocks()
            == group_blocks(groups, 0),
        EraBlockReaderView::start(e2store::file_bytes(era1_file(groups, tail))).failure() is None,
{
    types::lemma_type_codes();
    let entries = era1_file(groups, tail);
    let list = group_entries(groups, 0);
    lemma_group_entries(groups, 0);
    assert forall|k: int| 1 <= k < entries.len() implies (#[trigger] entries[k]).wf() && era1_entry(
        entries[k],
    ) by {
        if k < 1 + list.len() {
            assert(entries[k] == list[k - 1]);
        } else {
            assert(entries[k] == tail[k - 1 - list.len()]);
            assert(passed_over(entries[k]));
        }
    }
    assert(entries[0].wf());
    assert(e2store::all_wf(entries));
    e2store::file_roundtrip(entries);
    era1_blocks_assembled(e2store::file_bytes(entries));
    assert(entries.skip(1) =~= list + tail);
    lemma_groups_at(entries, groups, tail, 0, 1);
}

/// The 32 bytes of some data as an array.
pub proof fn lemma_array(data: Seq<u8>)
    requires
        data.len() == 32,
    ensures
        typed::word_of(data)@ == data,
{
    let a: [u8; 32] = [
        data[0], data[1], data[2], data[3], data[4], data[5], data[6], data[7],
        data[8], data[9], data[10], data[11], data[12], data[13], data[14], data[15],
        data[16], data[17], data[18], data[19], data[20], data[21], data[22], data[23],
        data[24], data[25], data[26], data[27], data[28], data[29], data[30], data[31],
    ];
    assert(a@ =~= data);
    typed::lemma_word(a);
}

/// What an entry of each type decodes to, by the two bytes of its type: blocks,
/// states and headers to what their data decompresses to, bodies and receipts to
/// their data as it stands, total difficulties and accumulators to their 32
/// bytes, indexes to what their bytes say, and all else to itself.
pub proof fn entries_decoded(e: EntryView)
    ensures
        ({
            let typ = e.header.typ;
            let t = typed::typed_of(e);
            let plain = era::snappy_decoded(e.data);
            let index = era::slot_index_of(e.data);
            if layout::has_code(typ, 0x01, 0x00) {
                plain is Ok && t == Ok::<_, ErrorView>(
                    TypedEntryView::BeaconBlock { data: plain->Ok_0 },
                ) || plain is Err && t is Err
            } else if layout::has_code(typ, 0x02, 0x00) {
                plain is Ok && t == Ok::<_, ErrorView>(
                    TypedEntryView::BeaconState { data: plain->Ok_0 },
                ) || plain is Err && t is Err
            } else if layout::has_code(typ, 0x03, 0x00) {
                plain is Ok && t == Ok::<_, ErrorView>(
                    TypedEntryView::Header { data: plain->Ok_0 },
                ) || plain is Err && t is Err
            } else if layout::has_code(typ, 0x04, 0x00) {
                t == Ok::<_, ErrorView>(TypedEntryView::BlockBody { data: e.data })
            } else if layout::has_code(typ, 0x05, 0x00) {
                t == Ok::<_, ErrorView>(TypedEntryView::Receipts { data: e.data })
            } else if layout::has_code(typ, 0x06, 0x00) {
                if e.data.len() == 32 {
                    t matches Ok(TypedEntryView::TotalDifficulty { value }) && value.0@ == e.data
                } else {
                    t is Err
                }
            } else if layout::has_code(typ, 0x07, 0x00) {
                if e.data.len() == 32 {
                    t matches Ok(TypedEntryView::BlockAccumulator { root }) && root@ == e.data
                } else {
                    t is Err
                }
            } else if layout::has_code(typ, 0x66, 0x32) {
                index is Ok && t == Ok::<_, ErrorView>(
                    TypedEntryView::BlockIndex { index: index->Ok_0 },
                ) || index is Err && t is Err
            } else if layout::has_code(typ, 0x33, 0x00) {
                index is Ok && t == Ok::<_, ErrorView>(
                    TypedEntryView::StateIndex { index: index->Ok_0 },
                ) || index is Err && t is Err
            } else {
                t == Ok::<_, ErrorView>(TypedEntryView::Unknown { typ, data: e.data })
            }
        }),
{
    layout::type_codes(e.header.typ);
    if e.data.len() == 32 {
        lemma_array(e.data);
    }
}

/// A generic slot index decodes to a block index if none stands before it in the
/// file, and else to a state index, with what its bytes say.
pub proof fn slot_indexes_decoded(entries: Seq<EntryView>, i: int)
    requires
        0 <= i < entries.len(),
        layout::has_code(entries[i].header.typ, 0x69, 0x32),
        era::slot_index_of(entries[i].data) is Ok,
    ensures
        ({
            let index = era::slot_index_of(entries[i].data)->Ok_0;
            let first = forall|k: int|
                1 <= k < i ==> !layout::has_code((#[trigger] entries[k]).header.typ, 0x69, 0x32);
            decoded_at(entries, i) == Ok::<TypedEntryView, ErrorView>(
                if first {
                    TypedEntryView::BlockIndex { index }
                } else {
                    TypedEntryView::StateIndex { index }
                },
            )
        }),
{
    types::lemma_type_codes();
    layout::type_codes(entries[i].header.typ);
    assert forall|k: int| 1 <= k < i implies (layout::has_code(
        (#[trigger] entries[k]).header.typ,
        0x69,
        0x32,
    ) <==> entries[k].header.typ == types::TYPE_SLOT_INDEX) by {
        layout::type_codes(entries[k].header.typ);
    }
    if slot_index_before(entries, i) {
        let k = choose|k: int|
            1 <= k < i && (#[trigger] entries[k]).header.typ == types::TYPE_SLOT_INDEX;
        assert(layout::has_code(entries[k].header.typ, 0x69, 0x32));
    }
}

/// A typed entry tells the type that it was decoded from, and how many bytes its
/// data has: as many as were decompressed, or as were there.
pub proof fn typed_entry_tells(e: EntryView)
    requires
        typed::typed_of(e) is Ok,
    ensures
        typed::typed_of(e)->Ok_0.entry_type() == e.header.typ,
        typed::typed_of(e)->Ok_0.data_len() == if e.header.typ[1] == 0 && 1 <= e.header.typ[0]
            <= 3 {
            era::snappy_decoded(e.data)->Ok_0.len()
        } else {
            e.data.len()
        },
{
    types::lemma_type_codes();
    layout::type_codes(e.header.typ);
    if era::slot_index_of(e.data) is Ok {
        layout::slot_index_reading(e.data);
        era::lemma_index_len(era::slot_index_of(e.data)->Ok_0);
    }
}

/// The label of a typed entry, by the type that it stands for.
pub proof fn typed_entry_labels(t: TypedEntryView)
    ensures
        t is Unknown ==> t.type_label() == "Unknown"@,
        t !is Unknown ==> ({
            let typ = t.entry_type();
            &&& layout::has_code(typ, 0x01, 0x00) ==> t.type_label() == "BeaconBlock"@
            &&& layout::has_code(typ, 0x02, 0x00) ==> t.type_label() == "BeaconState"@
            &&& layout::has_code(typ, 0x66, 0x32) ==> t.type_label() == "BlockIndex"@
            &&& layout::has_code(typ, 0x33, 0x00) ==> t.type_label() == "StateIndex"@
            &&& layout::has_code(typ, 0x03, 0x00) ==> t.type_label() == "Header"@
            &&& layout::has_code(typ, 0x04, 0x00) ==> t.type_label() == "BlockBody"@
            &&& layout::has_code(typ, 0x05, 0x00) ==> t.type_label() == "Receipts"@
            &&& layout::has_code(typ, 0x06, 0x00) ==> t.type_label() == "TotalDifficulty"@
            &&& layout::has_code(typ, 0x07, 0x00) ==> t.type_label() == "BlockAccumulator"@
        }),
{
    layout::type_codes(t.entry_type());
    types::lemma_type_codes();
}

/// Whether the first entry after the version makes a file an ERA file: a beacon
/// block, a beacon state, a block index or a state index.
pub open spec fn tells_era(typ: [u8; 2]) -> bool {
    layout::has_code(typ, 0x01, 0x00) || layout::has_code(typ, 0x02, 0x00) || layout::has_code(
        typ,
        0x66,
        0x32,
    ) || layout::has_code(typ, 0x33, 0x00)
}

/// The format of a file is told by the first entry after the version, however
/// far reading has come, and opening the file tells the same.
pub proof fn format_told(data: Seq<u8>)
    requires
        e2store::all_entries_of(data) is Ok,
        e2store::all_entries_of(data)->Ok_0.len() >= 2,
    ensures
        ({
            let first = e2store::all_entries_of(data)->Ok_0[1].header.typ;
            let told = Some(
                if tells_era(first) {
                    EraFormat::Era
                } else {
                    EraFormat::Era1
                },
            );
            &&& EraReaderView::start(data).after().format == told
            &&& !layout::has_code(first, 0x65, 0x32) ==> (EraRandomReaderView::open(
                data,
            ) matches Ok(r) ==> r.format == told)
        }),
{
    let raw = e2store::all_entries_of(data)->Ok_0;
    let first = raw[1].header.typ;
    layout::type_codes(first);
    lemma_at_first(data);
    lemma_stands_at(EraReaderView::start(data).past_version(), raw, 1);
    let rest = e2store::after_entry(data);
    assert(e2store::stream_entries(rest)[0] == raw[1]);
    assert(e2store::next_entry_of(rest) matches Ok(Some(e)) && e == raw[1]);
    e2store::scan_agrees(data);
    let headers = e2store::stream_headers(data);
    assert(headers[0] == raw[0].header);
    assert(headers[1] == raw[1].header);
    reveal_with_fuel(random::format_of, 3);
    assert(headers.skip(1).first() == raw[1].header);
}

/// Once a format is told it does not change.
pub proof fn format_kept(v: EraReaderView)
    requires
        v.format is Some,
    ensures
        v.after().format == v.format,
{
}

} // verus!
