//! What a built file gives back.

use vstd::prelude::*;

use crate::bytes;
use crate::error;
use crate::error::ErrorView;
use crate::format::e2store;
use crate::format::e2store::{EntryView, Header};
use crate::format::era;
use crate::format::era::SlotIndexView;
use crate::format::types;
use crate::read::block::{BlockView, Era1AssemblyView, EraBlockReaderView};
use crate::read::random;
use crate::read::random::{EraRandomReaderView, SlotLookupError};
use crate::read::typed;
use crate::read::typed::{EraFormat, EraReaderView, TypedEntryView};
use crate::verify;
use crate::verify::scan;
use crate::verify::scan::ScanView;
use crate::write::EraBuilderView;

verus! {

/// Reading from where an entry starts gives that entry.
pub proof fn entry_found(entries: Seq<EntryView>, i: int)
    requires
        e2store::all_wf(entries),
        0 <= i < entries.len(),
    ensures
        e2store::entry_pos(entries, i) < e2store::file_bytes(entries).len(),
        random::bytes_from(e2store::file_bytes(entries), e2store::entry_pos(entries, i) as int)
            == e2store::file_bytes(entries.skip(i)),
        e2store::next_entry_of(e2store::file_bytes(entries.skip(i))) == Ok::<
            Option<EntryView>,
            error::IoErrorView,
        >(Some(entries[i])),
        e2store::next_header_of(e2store::file_bytes(entries.skip(i))) == Ok::<
            Option<Header>,
            error::IoErrorView,
        >(Some(entries[i].header)),
        e2store::after_entry(e2store::file_bytes(entries.skip(i))) == e2store::file_bytes(
            entries.skip(i + 1),
        ),
{
    let data = e2store::file_bytes(entries);
    let rest = entries.skip(i);
    assert(entries =~= entries.take(i) + rest);
    e2store::lemma_file_concat(entries.take(i), rest);
    assert(data.skip(e2store::entry_pos(entries, i) as int) =~= e2store::file_bytes(rest));
    e2store::lemma_file_first(rest);
    assert(rest.skip(1) =~= entries.skip(i + 1));
    assert(rest[0] == entries[i]);
    e2store::entry_read_back(entries[i], e2store::file_bytes(rest.skip(1)));
    e2store::lemma_header_len(entries[i].header);
}

/// The header-only scan finds the first entry of a type.
pub proof fn header_found(entries: Seq<EntryView>, typ: [u8; 2], i: int, k: int)
    requires
        e2store::all_wf(entries),
        0 <= i <= k < entries.len(),
        forall|j: int| i <= j < k ==> (#[trigger] entries[j]).header.typ != typ,
        entries[k].header.typ == typ,
    ensures
        random::find_header(
            e2store::file_bytes(entries),
            e2store::entry_pos(entries, i),
            typ,
        ) == Ok::<Option<nat>, ErrorView>(Some(e2store::entry_pos(entries, k))),
    decreases k - i,
{
    entry_found(entries, i);
    if i < k {
        crate::verify::scan::lemma_entry_pos_step(entries, i);
        header_found(entries, typ, i + 1, k);
    }
}

/// The header-only scan finds nothing of a type that is not there.
pub proof fn header_missing(entries: Seq<EntryView>, typ: [u8; 2], i: int)
    requires
        e2store::all_wf(entries),
        0 <= i <= entries.len(),
        forall|j: int| i <= j < entries.len() ==> (#[trigger] entries[j]).header.typ != typ,
    ensures
        random::find_header(
            e2store::file_bytes(entries),
            e2store::entry_pos(entries, i),
            typ,
        ) == Ok::<Option<nat>, ErrorView>(None),
    decreases entries.len() - i,
{
    if i < entries.len() {
        entry_found(entries, i);
        crate::verify::scan::lemma_entry_pos_step(entries, i);
        header_missing(entries, typ, i + 1);
    } else {
        let data = e2store::file_bytes(entries);
        assert(entries.take(i) =~= entries);
        assert(random::bytes_from(data, data.len() as int) =~= Seq::empty());
    }
}

/// The index that stands at `k` can be read from where it starts.
proof fn lemma_index_read(entries: Seq<EntryView>, k: int)
    requires
        e2store::all_wf(entries),
        0 <= k < entries.len(),
    ensures
        random::index_found_at(e2store::file_bytes(entries), e2store::entry_pos(entries, k)) == (
        match era::slot_index_of(entries[k].data) {
            Ok(idx) => Ok::<Option<(u64, SlotIndexView)>, ErrorView>(
                Some((e2store::entry_pos(entries, k) as u64, idx)),
            ),
            Err(message) => Err(typed::bad_index(message)),
        }),
{
    entry_found(entries, k);
}

/// The first block index of a file is the index of its blocks, whatever else
/// there is.
pub proof fn block_index_counts(entries: Seq<EntryView>, k: int)
    requires
        e2store::all_wf(entries),
        0 <= k < entries.len(),
        forall|j: int|
            0 <= j < k ==> (#[trigger] entries[j]).header.typ != types::TYPE_BLOCK_INDEX,
        entries[k].header.typ == types::TYPE_BLOCK_INDEX,
    ensures
        random::find_index(e2store::file_bytes(entries)) == (match era::slot_index_of(
            entries[k].data,
        ) {
            Ok(idx) => Ok::<Option<(u64, SlotIndexView)>, ErrorView>(
                Some((e2store::entry_pos(entries, k) as u64, idx)),
            ),
            Err(message) => Err(typed::bad_index(message)),
        }),
{
    assert(entries.take(0) =~= Seq::empty());
    assert(e2store::entry_pos(entries, 0) == 0);
    header_found(entries, types::TYPE_BLOCK_INDEX, 0, k);
    lemma_index_read(entries, k);
}

/// The first generic slot index of a file without a block index is the index of
/// its blocks.
pub proof fn slot_index_counts(entries: Seq<EntryView>, k: int)
    requires
        e2store::all_wf(entries),
        0 <= k < entries.len(),
        forall|j: int|
            0 <= j < entries.len() ==> (#[trigger] entries[j]).header.typ
                != types::TYPE_BLOCK_INDEX,
        forall|j: int| 0 <= j < k ==> (#[trigger] entries[j]).header.typ != types::TYPE_SLOT_INDEX,
        entries[k].header.typ == types::TYPE_SLOT_INDEX,
    ensures
        random::find_index(e2store::file_bytes(entries)) == (match era::slot_index_of(
            entries[k].data,
        ) {
            Ok(idx) => Ok::<Option<(u64, SlotIndexView)>, ErrorView>(
                Some((e2store::entry_pos(entries, k) as u64, idx)),
            ),
            Err(message) => Err(typed::bad_index(message)),
        }),
{
    assert(entries.take(0) =~= Seq::empty());
    assert(e2store::entry_pos(entries, 0) == 0);
    header_missing(entries, types::TYPE_BLOCK_INDEX, 0);
    header_found(entries, types::TYPE_SLOT_INDEX, 0, k);
    lemma_index_read(entries, k);
}

/// An offset leads from the index to where it was made for.
pub proof fn offset_leads_back(base: int, pos: int)
    requires
        0 <= pos < base < 0x1_0000_0000_0000_0000,
    ensures
        crate::write::offset_from(base, pos) != 0,
        bytes::wrap64(base + crate::write::offset_from(base, pos)) == pos,
{
}

pub proof fn lemma_builder_entries(v: EraBuilderView)
    requires
        v.fits(),
    ensures
        e2store::all_wf(v.entries()),
        v.content().len() == 1 + v.blocks.len() + if v.state is Some {
            1int
        } else {
            0
        },
        v.entries()[0] == e2store::entry_of(types::TYPE_VERSION, Seq::empty()),
        forall|i: int|
            0 <= i < v.blocks.len() ==> #[trigger] v.entries()[1 + i] == e2store::entry_of(
                types::TYPE_COMPRESSED_SIGNED_BEACON_BLOCK,
                v.blocks[i].1,
            ),
        v.state matches Some(s) ==> v.entries()[1 + v.blocks.len() as int] == e2store::entry_of(
            types::TYPE_COMPRESSED_BEACON_STATE,
            s.1,
        ),
        v.entries()[v.content().len() as int] == e2store::entry_of(
            types::TYPE_SLOT_INDEX,
            v.block_index().encoded(),
        ),
        v.entries().len() == v.content().len() + if v.state is Some {
            2int
        } else {
            1
        },
        v.state matches Some(s) ==> v.entries()[v.content().len() as int + 1]
            == e2store::entry_of(types::TYPE_SLOT_INDEX, v.state_index(s.0).encoded()),
        e2store::entry_pos(v.entries(), v.content().len() as int) == v.index_pos(),
{
    era::lemma_index_len(v.block_index());
    crate::write::lemma_content_len(v);
    if v.blocks.len() > 0 {
        crate::write::lemma_slot_range(v.blocks);
    }
    match v.state {
        Some(s) => {
            era::lemma_index_len(v.state_index(s.0));
        },
        None => {},
    }
    assert(v.entries().take(v.content().len() as int) =~= v.content());
    assert forall|i: int| 0 <= i < v.blocks.len() implies #[trigger] v.entries()[1 + i]
        == e2store::entry_of(types::TYPE_COMPRESSED_SIGNED_BEACON_BLOCK, v.blocks[i].1) by {
        assert(v.entries()[1 + i] == crate::write::block_entries(v.blocks)[i]);
    }
    assert forall|i: int| 0 <= i < v.entries().len() implies (#[trigger] v.entries()[i]).wf() by {
        if 1 <= i <= v.blocks.len() {
            assert(v.entries()[i] == v.entries()[1 + (i - 1)]);
        }
    }
}

/// Where a block starts: after the version and the blocks before it.
pub proof fn lemma_block_entry_pos(v: EraBuilderView, i: int)
    requires
        v.fits(),
        0 <= i <= v.blocks.len(),
    ensures
        e2store::entry_pos(v.entries(), 1 + i) == 8 + crate::write::blocks_size(v.blocks.take(i)),
{
    lemma_builder_entries(v);
    let version = seq![v.entries()[0]];
    let front = crate::write::block_entries(v.blocks.take(i));
    assert(v.entries().take(1 + i) =~= version + front) by {
        assert forall|j: int| 0 <= j < i implies v.entries()[1 + j] == front[j] by {
            assert(v.entries()[1 + j] == e2store::entry_of(
                types::TYPE_COMPRESSED_SIGNED_BEACON_BLOCK,
                v.blocks[j].1,
            ));
        }
    }
    e2store::lemma_file_concat(version, front);
    crate::write::lemma_single(version[0]);
    crate::write::lemma_block_entries_len(v.blocks.take(i));
}

/// In a builder without repeated slots, the position of a slot is that of its
/// block.
pub proof fn lemma_block_pos(blocks: Seq<(u64, Seq<u8>)>, i: int)
    requires
        0 <= i < blocks.len(),
        forall|a: int, b: int|
            0 <= a < b < blocks.len() ==> (#[trigger] blocks[a]).0 != (#[trigger] blocks[b]).0,
    ensures
        crate::write::block_pos(blocks, blocks[i].0) == Some(
            8 + crate::write::blocks_size(blocks.take(i)),
        ),
    decreases blocks.len(),
{
    let front = blocks.drop_last();
    if i < front.len() {
        assert(blocks[i].0 != blocks.last().0);
        lemma_block_pos(front, i);
        assert(front.take(i) =~= blocks.take(i));
    } else {
        assert(blocks.take(i) =~= front);
    }
}

pub proof fn lemma_no_block_pos(blocks: Seq<(u64, Seq<u8>)>, slot: u64)
    requires
        forall|i: int| 0 <= i < blocks.len() ==> (#[trigger] blocks[i]).0 != slot,
    ensures
        crate::write::block_pos(blocks, slot) is None,
    decreases blocks.len(),
{
    if blocks.len() > 0 {
        lemma_no_block_pos(blocks.drop_last(), slot);
    }
}

/// A built file can be opened, and its block index is the one that was built.
/// If there is a block or a state, it is an ERA file.
pub proof fn built_file_opens(v: EraBuilderView)
    requires
        v.fits(),
        e2store::file_bytes(v.entries()).len() <= u64::MAX,
    ensures
        EraRandomReaderView::open(e2store::file_bytes(v.entries())) == Ok::<
            EraRandomReaderView,
            ErrorView,
        >(
            EraRandomReaderView {
                data: e2store::file_bytes(v.entries()),
                format: Some(
                    if v.blocks.len() > 0 || v.state is Some {
                        EraFormat::Era
                    } else {
                        EraFormat::Era1
                    },
                ),
                index: Some((v.index_pos() as u64, v.block_index())),
            },
        ),
{
    types::lemma_type_codes();
    lemma_builder_entries(v);
    let entries = v.entries();
    let data = e2store::file_bytes(entries);
    let k = v.content().len() as int;
    entry_found(entries, 0);
    assert(entries.skip(0) =~= entries);
    assert(entries.take(0) =~= Seq::empty());
    assert(e2store::entry_pos(entries, 0) == 0);
    assert forall|j: int| 0 <= j < entries.len() implies (#[trigger] entries[j]).header.typ
        != types::TYPE_BLOCK_INDEX && (j < k ==> entries[j].header.typ != types::TYPE_SLOT_INDEX) by {
        if 1 <= j <= v.blocks.len() {
            assert(entries[j] == entries[1 + (j - 1)]);
        }
    }
    slot_index_counts(entries, k);
    era::slot_index_roundtrip(v.block_index());
    e2store::headers_read_back(entries);
    let headers = entries.map_values(|e: EntryView| e.header);
    reveal_with_fuel(random::format_of, 2);
    assert(headers.skip(1).first() == entries[1].header);
    if v.blocks.len() > 0 {
        let first: int = 0;
        assert(entries[1] == entries[1 + first]);
    }
}

/// Reading the slot of a block that was built in gives that block, decompressed,
/// or the error of its decompression. The highest slot number there is cannot
/// be looked up.
pub proof fn built_block_found(v: EraBuilderView, i: int)
    requires
        v.wf(),
        v.fits(),
        e2store::file_bytes(v.entries()).len() <= u64::MAX,
        crate::write::max_slot(v.blocks) < u64::MAX,
        0 <= i < v.blocks.len(),
    ensures
        EraRandomReaderView::open(e2store::file_bytes(v.entries())) matches Ok(r) && r.block_at(
            v.blocks[i].0,
        ) == (match era::payload_of(era::snappy_decoded(v.blocks[i].1)) {
            Ok(block) => Ok::<Option<BlockView>, ErrorView>(Some(BlockView::Era(block))),
            Err(e) => Err(e),
        }),
{
    built_file_opens(v);
    lemma_builder_entries(v);
    lemma_built_lookup(v, i);
    entry_found(v.entries(), 1 + i);
    lemma_typed_block(v.blocks[i].1);
    assert(v.entries()[1 + i] == e2store::entry_of(
        types::TYPE_COMPRESSED_SIGNED_BEACON_BLOCK,
        v.blocks[i].1,
    ));
}

/// The index of a built file leads from the slot of a block to its entry.
pub proof fn lemma_built_lookup(v: EraBuilderView, i: int)
    requires
        v.wf(),
        v.fits(),
        e2store::file_bytes(v.entries()).len() <= u64::MAX,
        crate::write::max_slot(v.blocks) < u64::MAX,
        0 <= i < v.blocks.len(),
    ensures
        random::lookup(Some((v.index_pos() as u64, v.block_index())), v.blocks[i].0) == Ok::<
            u64,
            SlotLookupError,
        >(e2store::entry_pos(v.entries(), 1 + i) as u64),
{
    let entries = v.entries();
    let slot = v.blocks[i].0;
    let low = crate::write::min_slot(v.blocks);
    let pos = e2store::entry_pos(entries, 1 + i);
    let k = v.content().len() as int;
    lemma_builder_entries(v);
    crate::write::lemma_slot_range(v.blocks);
    lemma_block_pos(v.blocks, i);
    lemma_block_entry_pos(v, i);
    lemma_pos_order(entries, 1 + i, k);
    entry_found(entries, k);
    offset_leads_back(v.index_pos() as int, pos as int);
    assert(v.block_index().offsets[slot - low] == v.offset_of(slot - low));
}

proof fn lemma_typed_block(data: Seq<u8>)
    ensures
        typed::typed_of(e2store::entry_of(types::TYPE_COMPRESSED_SIGNED_BEACON_BLOCK, data)) == (
        match era::payload_of(era::snappy_decoded(data)) {
            Ok(data) => Ok::<TypedEntryView, ErrorView>(TypedEntryView::BeaconBlock { data }),
            Err(e) => Err(e),
        }),
{
}

/// Later entries start later.
pub proof fn lemma_pos_order(entries: Seq<EntryView>, i: int, j: int)
    requires
        0 <= i < j <= entries.len(),
    ensures
        e2store::entry_pos(entries, i) < e2store::entry_pos(entries, j),
    decreases j - i,
{
    crate::verify::scan::lemma_entry_pos_step(entries, j - 1);
    if i < j - 1 {
        lemma_pos_order(entries, i, j - 1);
    }
}

/// Reading a slot between those of the blocks gives nothing, and reading one
/// outside gives an error.
pub proof fn built_gap_found(v: EraBuilderView, slot: u64)
    requires
        v.fits(),
        e2store::file_bytes(v.entries()).len() <= u64::MAX,
        v.blocks.len() > 0,
        crate::write::max_slot(v.blocks) < u64::MAX,
        !v.has_slot(slot),
    ensures
        EraRandomReaderView::open(e2store::file_bytes(v.entries())) matches Ok(r) && r.block_at(
            slot,
        ) == (if crate::write::min_slot(v.blocks) <= slot <= crate::write::max_slot(v.blocks) {
            Ok::<Option<BlockView>, ErrorView>(None)
        } else {
            Err(
                error::invalid_era_view(
                    (SlotLookupError::OutOfRange {
                        slot,
                        start: crate::write::min_slot(v.blocks),
                        end: (crate::write::max_slot(v.blocks) + 1) as u64,
                    }).text(),
                ),
            )
        }),
{
    built_file_opens(v);
    crate::write::lemma_slot_range(v.blocks);
    let low = crate::write::min_slot(v.blocks);
    let high = crate::write::max_slot(v.blocks);
    if low <= slot <= high {
        lemma_no_block_pos(v.blocks, slot);
        assert(v.block_index().offsets[slot - low] == v.offset_of(slot - low));
    }
}

proof fn lemma_find_state(entries: Seq<EntryView>, i: int, k: int)
    requires
        e2store::all_wf(entries),
        0 <= i <= k <= entries.len(),
        forall|j: int|
            i <= j < k ==> (#[trigger] entries[j]).header.typ
                != types::TYPE_COMPRESSED_BEACON_STATE,
        k < entries.len() ==> entries[k].header.typ == types::TYPE_COMPRESSED_BEACON_STATE,
    ensures
        random::find_state(e2store::file_bytes(entries.skip(i))) == Ok::<
            Option<Seq<u8>>,
            ErrorView,
        >(
            if k < entries.len() {
                Some(entries[k].data)
            } else {
                None
            },
        ),
    decreases k - i,
{
    if i < entries.len() {
        entry_found(entries, i);
        if i < k {
            lemma_find_state(entries, i + 1, k);
        }
    } else {
        assert(entries.skip(i) =~= Seq::empty());
    }
}

/// Reading the state of a built file gives the state that was set,
/// decompressed, or the error of its decompression; or nothing if none was set.
pub proof fn built_state_found(v: EraBuilderView)
    requires
        v.fits(),
        e2store::file_bytes(v.entries()).len() <= u64::MAX,
    ensures
        EraRandomReaderView::open(e2store::file_bytes(v.entries())) matches Ok(r) && r.state() == (
        match v.state {
            None => Ok::<Option<Seq<u8>>, ErrorView>(None),
            Some(s) => match era::payload_of(era::snappy_decoded(s.1)) {
                Ok(state) => Ok(Some(state)),
                Err(e) => Err(e),
            },
        }),
{
    types::lemma_type_codes();
    built_file_opens(v);
    lemma_builder_entries(v);
    let entries = v.entries();
    let k = if v.state is Some {
        1 + v.blocks.len() as int
    } else {
        entries.len() as int
    };
    assert(entries.skip(0) =~= entries);
    entry_found(entries, 0);
    assert forall|j: int| 1 <= j < k implies (#[trigger] entries[j]).header.typ
        != types::TYPE_COMPRESSED_BEACON_STATE by {
        if j <= v.blocks.len() {
            assert(entries[j] == entries[1 + (j - 1)]);
        }
    }
    lemma_find_state(entries, 1, k);
}

/// The blocks from place `i` on, decompressed, up to the first that does not
/// decompress.
pub open spec fn decompressed(blocks: Seq<(u64, Seq<u8>)>, i: int) -> Seq<BlockView>
    decreases blocks.len() - i,
{
    if i >= blocks.len() {
        Seq::empty()
    } else {
        match era::payload_of(era::snappy_decoded(blocks[i].1)) {
            Ok(block) => seq![BlockView::Era(block)] + decompressed(blocks, i + 1),
            Err(_) => Seq::empty(),
        }
    }
}

/// The first error of decompressing the blocks from place `i` on, and then the
/// state.
pub open spec fn decompression_error(v: EraBuilderView, i: int) -> Option<ErrorView>
    decreases v.blocks.len() - i,
{
    if i >= v.blocks.len() {
        match v.state {
            None => None,
            Some(s) => match era::payload_of(era::snappy_decoded(s.1)) {
                Ok(_) => None,
                Err(e) => Some(e),
            },
        }
    } else {
        match era::payload_of(era::snappy_decoded(v.blocks[i].1)) {
            Ok(_) => decompression_error(v, i + 1),
            Err(e) => Some(e),
        }
    }
}

/// A reader that has got to the entry at `i`.
spec fn reader_at(
    entries: Seq<EntryView>,
    i: int,
    format: Option<EraFormat>,
    slot_index_seen: bool,
) -> EraReaderView {
    EraReaderView {
        rest: e2store::file_bytes(entries.skip(i)),
        format,
        version_consumed: true,
        slot_index_seen,
    }
}

/// A block reader that has got to the entry at `i`, with nothing pending.
spec fn blocks_at(
    entries: Seq<EntryView>,
    i: int,
    format: Option<EraFormat>,
    slot_index_seen: bool,
) -> EraBlockReaderView {
    EraBlockReaderView {
        inner: reader_at(entries, i, format, slot_index_seen),
        format,
        pending: Era1AssemblyView::empty(),
    }
}

spec fn format_after(format: Option<EraFormat>, e: EntryView) -> Option<EraFormat> {
    match format {
        Some(f) => Some(f),
        None => Some(typed::format_of_type(e.header.typ)),
    }
}

proof fn lemma_reader_step(
    entries: Seq<EntryView>,
    i: int,
    format: Option<EraFormat>,
    seen: bool,
)
    requires
        e2store::all_wf(entries),
        0 <= i < entries.len(),
    ensures
        reader_at(entries, i, format, seen).next() == (match typed::typed_of(
            typed::index_resolved(entries[i], seen),
        ) {
            Ok(t) => Ok::<Option<TypedEntryView>, ErrorView>(Some(t)),
            Err(e) => Err(e),
        }),
        reader_at(entries, i, format, seen).after() == reader_at(
            entries,
            i + 1,
            format_after(format, entries[i]),
            seen || entries[i].header.typ == types::TYPE_SLOT_INDEX,
        ),
{
    entry_found(entries, i);
}

/// An entry that completes no block is passed over.
proof fn lemma_blocks_skip(
    entries: Seq<EntryView>,
    i: int,
    format: Option<EraFormat>,
    seen: bool,
)
    requires
        e2store::all_wf(entries),
        0 <= i < entries.len(),
        typed::typed_of(typed::index_resolved(entries[i], seen)) matches Ok(t) && (
        t is BeaconState || t is BlockIndex || t is StateIndex),
    ensures
        ({
            let next = blocks_at(
                entries,
                i + 1,
                format_after(format, entries[i]),
                seen || entries[i].header.typ == types::TYPE_SLOT_INDEX,
            );
            &&& blocks_at(entries, i, format, seen).next() == next.next()
            &&& blocks_at(entries, i, format, seen).after() == next.after()
        }),
{
    lemma_reader_step(entries, i, format, seen);
    let t = typed::typed_of(typed::index_resolved(entries[i], seen))->Ok_0;
    let here = blocks_at(entries, i, format, seen);
    let next = blocks_at(
        entries,
        i + 1,
        format_after(format, entries[i]),
        seen || entries[i].header.typ == types::TYPE_SLOT_INDEX,
    );
    assert(here.step(t) == next);
}

/// At the end nothing is left.
proof fn lemma_blocks_end(entries: Seq<EntryView>, format: Option<EraFormat>, seen: bool)
    ensures
        blocks_at(entries, entries.len() as int, format, seen).next() == Ok::<
            Option<BlockView>,
            ErrorView,
        >(None),
{
    assert(entries.skip(entries.len() as int) =~= Seq::empty());
}

/// After the blocks, a built file delivers nothing more, or the error of
/// decompressing the state.
proof fn lemma_built_tail(v: EraBuilderView, format: Option<EraFormat>)
    requires
        v.fits(),
    ensures
        blocks_at(v.entries(), 1 + v.blocks.len() as int, format, false).next() == (
        match decompression_error(v, v.blocks.len() as int) {
            None => Ok::<Option<BlockView>, ErrorView>(None),
            Some(e) => Err(e),
        }),
{
    types::lemma_type_codes();
    lemma_builder_entries(v);
    let entries = v.entries();
    let n = 1 + v.blocks.len() as int;
    era::slot_index_roundtrip(v.block_index());
    match v.state {
        None => {
            lemma_blocks_skip(entries, n, format, false);
            lemma_blocks_end(entries, format_after(format, entries[n]), true);
        },
        Some(s) => {
            era::slot_index_roundtrip(v.state_index(s.0));
            lemma_reader_step(entries, n, format, false);
            match era::payload_of(era::snappy_decoded(s.1)) {
                Err(_) => {},
                Ok(_) => {
                    lemma_blocks_skip(entries, n, format, false);
                    let f = format_after(format, entries[n]);
                    lemma_blocks_skip(entries, n + 1, f, false);
                    lemma_blocks_skip(entries, n + 2, f, true);
                    lemma_blocks_end(entries, f, true);
                },
            }
        },
    }
}

proof fn lemma_built_from(v: EraBuilderView, i: int, format: Option<EraFormat>)
    requires
        v.fits(),
        0 <= i <= v.blocks.len(),
    ensures
        blocks_at(v.entries(), 1 + i, format, false).blocks() == decompressed(v.blocks, i),
        blocks_at(v.entries(), 1 + i, format, false).failure() == decompression_error(v, i),
    decreases v.blocks.len() - i,
{
    types::lemma_type_codes();
    lemma_builder_entries(v);
    let entries = v.entries();
    let here = blocks_at(entries, 1 + i, format, false);
    if i == v.blocks.len() {
        lemma_built_tail(v, format);
    } else {
        assert(entries[1 + i] == e2store::entry_of(
            types::TYPE_COMPRESSED_SIGNED_BEACON_BLOCK,
            v.blocks[i].1,
        ));
        lemma_reader_step(entries, 1 + i, format, false);
        lemma_typed_block(v.blocks[i].1);
        match era::payload_of(era::snappy_decoded(v.blocks[i].1)) {
            Err(_) => {},
            Ok(block) => {
                let next = blocks_at(
                    entries,
                    1 + (i + 1),
                    format_after(format, entries[1 + i]),
                    false,
                );
                assert(here.step(TypedEntryView::BeaconBlock { data: block }) == next);
                assert(here.next() == Ok::<Option<BlockView>, ErrorView>(
                    Some(BlockView::Era(block)),
                ));
                assert(here.after() == next);
                lemma_built_from(v, i + 1, format_after(format, entries[1 + i]));
            },
        }
    }
}

/// Streaming a built file gives its blocks in the order in which they were
/// added, decompressed, up to the first that does not decompress. The stream
/// fails if and only if a block or the state does not decompress.
pub proof fn built_blocks_streamed(v: EraBuilderView)
    requires
        v.fits(),
    ensures
        EraBlockReaderView::start(e2store::file_bytes(v.entries())).blocks() == decompressed(
            v.blocks,
            0,
        ),
        EraBlockReaderView::start(e2store::file_bytes(v.entries())).failure()
            == decompression_error(v, 0),
{
    lemma_builder_entries(v);
    let entries = v.entries();
    let start = EraBlockReaderView::start(e2store::file_bytes(entries));
    let here = blocks_at(entries, 1, None, false);
    entry_found(entries, 0);
    assert(entries.skip(0) =~= entries);
    assert(start.inner.past_version() == here.inner);
    assert(start.inner.next() == here.inner.next());
    assert(start.inner.after() == here.inner.after());
    assert(start.next() == here.next());
    assert(start.after() == here.after()) by {
        match here.inner.next() {
            Ok(Some(t)) => {
                assert(start.step(t) == here.step(t));
            },
            Ok(None) => {
                lemma_reader_step(entries, 1, None, false);
            },
            Err(_) => {},
        }
    }
    lemma_built_from(v, 0, None);
}

/// Why the first `n` blocks do not decompress.
spec fn block_failures(entries: Seq<EntryView>, n: int) -> Seq<Seq<char>>
    decreases n,
{
    if n <= 0 {
        Seq::empty()
    } else {
        block_failures(entries, n - 1) + scan::failed(
            n,
            "beacon block decompression failed: "@,
            verify::decompression_failure(entries[n]),
        )
    }
}

/// The pass over the first `n` blocks.
proof fn lemma_scan_blocks(v: EraBuilderView, n: int)
    requires
        v.fits(),
        v.blocks.len() <= usize::MAX,
        0 <= n <= v.blocks.len(),
    ensures
        scan::scanned(v.entries(), verify::decompression_failures(v.entries()), 1 + n) == (
        ScanView {
            block_count: n as usize,
            format: if n > 0 {
                Some(EraFormat::Era)
            } else {
                None
            },
            errors: block_failures(v.entries(), n),
            ..ScanView::start()
        }),
    decreases n,
{
    lemma_builder_entries(v);
    let entries = v.entries();
    if n > 0 {
        lemma_scan_blocks(v, n - 1);
        assert(entries[n] == entries[1 + (n - 1)]);
    }
}

/// No failure among the first `n` blocks.
proof fn lemma_block_failures(v: EraBuilderView, n: int)
    requires
        v.fits(),
        0 <= n <= v.blocks.len(),
    ensures
        block_failures(v.entries(), n).len() == 0 <==> (forall|i: int|
            0 <= i < n ==> era::snappy_decoded((#[trigger] v.blocks[i]).1) is Ok),
    decreases n,
{
    lemma_builder_entries(v);
    types::lemma_type_codes();
    if n > 0 {
        lemma_block_failures(v, n - 1);
        assert(v.entries()[n] == v.entries()[1 + (n - 1)]);
        let b = v.blocks[n - 1];
        assert(era::snappy_decoded(b.1) is Ok <==> verify::decompression_failure(
            v.entries()[n],
        ) is None);
        if block_failures(v.entries(), n).len() == 0 {
            assert forall|i: int| 0 <= i < n implies era::snappy_decoded(
                (#[trigger] v.blocks[i]).1,
            ) is Ok by {}
        }
    }
}

/// How many of the blocks have a slot below `limit`.
spec fn blocks_below(blocks: Seq<(u64, Seq<u8>)>, limit: int) -> nat
    decreases blocks.len(),
{
    if blocks.len() == 0 {
        0
    } else {
        blocks_below(blocks.drop_last(), limit) + if blocks.last().0 < limit {
            1nat
        } else {
            0nat
        }
    }
}

proof fn lemma_blocks_below_step(blocks: Seq<(u64, Seq<u8>)>, slot: u64)
    requires
        forall|a: int, b: int|
            0 <= a < b < blocks.len() ==> (#[trigger] blocks[a]).0 != (#[trigger] blocks[b]).0,
    ensures
        blocks_below(blocks, slot + 1) == blocks_below(blocks, slot as int)
            + if crate::write::block_pos(blocks, slot) is Some {
            1nat
        } else {
            0nat
        },
    decreases blocks.len(),
{
    if blocks.len() > 0 {
        let front = blocks.drop_last();
        lemma_blocks_below_step(front, slot);
        if blocks.last().0 == slot {
            lemma_no_block_pos(front, slot);
        }
    }
}

proof fn lemma_blocks_below_ends(blocks: Seq<(u64, Seq<u8>)>, low: int, limit: int)
    requires
        forall|i: int| 0 <= i < blocks.len() ==> low <= (#[trigger] blocks[i]).0 < limit,
    ensures
        blocks_below(blocks, low) == 0,
        blocks_below(blocks, limit) == blocks.len(),
    decreases blocks.len(),
{
    if blocks.len() > 0 {
        lemma_blocks_below_ends(blocks.drop_last(), low, limit);
    }
}

/// A position in the block index leads to a block, and to no other place.
proof fn lemma_block_pos_range(v: EraBuilderView, slot: u64) -> (i: int)
    requires
        v.fits(),
        crate::write::block_pos(v.blocks, slot) is Some,
    ensures
        0 <= i < v.blocks.len(),
        v.blocks[i].0 == slot,
        crate::write::block_pos(v.blocks, slot) == Some(e2store::entry_pos(v.entries(), 1 + i)),
        8 <= e2store::entry_pos(v.entries(), 1 + i) < v.index_pos(),
{
    let i = lemma_block_pos_inv(v.blocks, slot);
    lemma_block_entry_pos(v, i);
    lemma_builder_entries(v);
    lemma_pos_order(v.entries(), 1 + i, v.content().len() as int);
    i
}

proof fn lemma_block_pos_inv(blocks: Seq<(u64, Seq<u8>)>, slot: u64) -> (i: int)
    requires
        crate::write::block_pos(blocks, slot) is Some,
    ensures
        0 <= i < blocks.len(),
        blocks[i].0 == slot,
        crate::write::block_pos(blocks, slot) == Some(
            8 + crate::write::blocks_size(blocks.take(i)),
        ),
    decreases blocks.len(),
{
    let front = blocks.drop_last();
    if blocks.last().0 == slot {
        assert(blocks.take(blocks.len() - 1) =~= front);
        blocks.len() - 1
    } else {
        let i = lemma_block_pos_inv(front, slot);
        assert(front.take(i) =~= blocks.take(i));
        i
    }
}

/// Which entry starts where one starts: that one.
pub proof fn lemma_entry_at(entries: Seq<EntryView>, n: int, k: int)
    requires
        1 <= k < n <= entries.len(),
        e2store::entry_pos(entries, k) <= u64::MAX,
    ensures
        verify::entry_at(entries, n, e2store::entry_pos(entries, k) as u64) == Some(k),
    decreases n,
{
    if k < n - 1 {
        lemma_pos_order(entries, k, n - 1);
        lemma_entry_at(entries, n - 1, k);
    }
}

/// The first `n` offsets of the block index count the blocks below, and
/// nothing is wrong with them.
proof fn lemma_index_sound(v: EraBuilderView, n: int)
    requires
        v.wf(),
        v.fits(),
        e2store::file_bytes(v.entries()).len() <= u64::MAX,
        v.blocks.len() > 0,
        0 <= n <= v.slot_span(),
    ensures
        verify::indexed_count(v.block_index().offsets, v.index_pos() as u64, n) == blocks_below(
            v.blocks,
            crate::write::min_slot(v.blocks) + n,
        ),
        verify::offset_errors(
            v.entries(),
            Some(types::TYPE_COMPRESSED_SIGNED_BEACON_BLOCK),
            v.index_pos() as u64,
            v.block_index(),
            n,
        ).len() == 0,
    decreases n,
{
    let entries = v.entries();
    let low = crate::write::min_slot(v.blocks);
    let high = crate::write::max_slot(v.blocks);
    crate::write::lemma_slot_range(v.blocks);
    lemma_builder_entries(v);
    entry_found(entries, v.content().len() as int);
    if n == 0 {
        lemma_blocks_below_ends(v.blocks, low as int, high + 1);
    } else {
        lemma_index_sound(v, n - 1);
        let slot = (low + (n - 1)) as u64;
        lemma_blocks_below_step(v.blocks, slot);
        assert(v.block_index().offsets[n - 1] == v.offset_of(n - 1));
        if crate::write::block_pos(v.blocks, slot) is Some {
            let i = lemma_block_pos_range(v, slot);
            let pos = e2store::entry_pos(entries, 1 + i);
            offset_leads_back(v.index_pos() as int, pos as int);
            lemma_entry_at(entries, entries.len() as int, 1 + i);
            assert(entries[1 + i].header.typ == types::TYPE_COMPRESSED_SIGNED_BEACON_BLOCK);
        }
    }
}

/// The pass over all entries of a built file.
proof fn lemma_scan_built(v: EraBuilderView)
    requires
        v.fits(),
        v.blocks.len() <= usize::MAX,
    ensures
        ({
            let s = scan::scanned(
                v.entries(),
                verify::decompression_failures(v.entries()),
                v.entries().len() as int,
            );
            let n = 1 + v.blocks.len() as int;
            &&& s.block_count == v.blocks.len()
            &&& s.format == if v.blocks.len() > 0 {
                Some(EraFormat::Era)
            } else {
                None
            }
            &&& s.group is None
            &&& s.warnings == Seq::<Seq<char>>::empty()
            &&& s.block_index == Some(v.block_index())
            &&& s.block_index_pos == v.index_pos() as u64
            &&& s.state_index == match v.state {
                Some(p) => Some(v.state_index(p.0)),
                None => None,
            }
            &&& v.state is Some ==> s.state_index_pos == v.state_index_pos() as u64
            &&& s.state_pos == match v.state {
                Some(p) => Some(v.state_pos() as u64),
                None => None,
            }
            &&& s.errors.len() == 0 <==> block_failures(
                v.entries(),
                v.blocks.len() as int,
            ).len() == 0 && (v.state matches Some(p) ==> era::snappy_decoded(p.1) is Ok)
        }),
{
    types::lemma_type_codes();
    lemma_builder_entries(v);
    lemma_scan_blocks(v, v.blocks.len() as int);
    let entries = v.entries();
    let why = verify::decompression_failures(entries);
    let n = 1 + v.blocks.len() as int;
    era::slot_index_roundtrip(v.block_index());
    era::lemma_index_len(v.block_index());
    let s0 = scan::scanned(entries, why, n);
    lemma_block_entry_pos(v, v.blocks.len() as int);
    assert(v.blocks.take(v.blocks.len() as int) =~= v.blocks);
    match v.state {
        None => {
            let s1 = scan::scanned(entries, why, n + 1);
            assert(s1.errors =~= s0.errors);
        },
        Some(p) => {
            era::slot_index_roundtrip(v.state_index(p.0));
            let s1 = scan::scanned(entries, why, n + 1);
            let s2 = scan::scanned(entries, why, n + 2);
            let s3 = scan::scanned(entries, why, n + 3);
            assert(s1 == s0.step(
                n,
                e2store::entry_pos(entries, n) as u64,
                entries[n],
                why[n],
            ));
            assert(s2.errors =~= s1.errors);
            assert(s3.errors =~= s2.errors);
            crate::verify::scan::lemma_entry_pos_step(entries, n + 1);
            if v.blocks.len() > 0 {
                crate::write::lemma_slot_range(v.blocks);
            }
            assert(s3.state_index_pos == e2store::entry_pos(entries, n + 2) as u64);
        },
    }
}

/// A built file passes verification if and only if its blocks and its state
/// decompress. The blocks are counted, the state is seen, and there is nothing
/// odd about the file.
pub proof fn built_file_verifies(v: EraBuilderView)
    requires
        v.wf(),
        v.fits(),
        e2store::file_bytes(v.entries()).len() <= u64::MAX,
        v.blocks.len() <= usize::MAX,
    ensures
        ({
            let r = verify::verification_of(e2store::file_bytes(v.entries()));
            &&& r.valid <==> (forall|i: int|
                0 <= i < v.blocks.len() ==> era::snappy_decoded((#[trigger] v.blocks[i]).1) is Ok)
                && (v.state matches Some(s) ==> era::snappy_decoded(s.1) is Ok)
            &&& r.block_count == v.blocks.len()
            &&& r.state_present == (v.state is Some)
            &&& r.warnings.len() == 0
            &&& r.format == if v.blocks.len() > 0 {
                Some("ERA"@)
            } else {
                None
            }
        }),
{
    types::lemma_type_codes();
    lemma_builder_entries(v);
    let entries = v.entries();
    let data = e2store::file_bytes(entries);
    entry_found(entries, 0);
    assert(entries.skip(0) =~= entries);
    e2store::entries_read_back(entries);
    assert(e2store::all_entries_of(data) == Ok::<Seq<EntryView>, error::IoErrorView>(entries));
    lemma_scan_built(v);
    lemma_block_failures(v, v.blocks.len() as int);
    let s = scan::scanned(entries, verify::decompression_failures(entries), entries.len() as int);
    if v.blocks.len() > 0 {
        let low = crate::write::min_slot(v.blocks);
        let high = crate::write::max_slot(v.blocks);
        crate::write::lemma_slot_range(v.blocks);
        lemma_index_sound(v, v.slot_span());
        lemma_blocks_below_ends(v.blocks, low as int, high + 1);
    } else {
        assert(v.block_index().offsets.len() == 0);
    }
    assert(verify::block_index_errors(entries, s).len() == 0);
    assert(verify::block_index_warnings(s).len() == 0);
    if v.state is Some {
        lemma_state_offset(v);
    }
    assert(verify::state_index_errors(s).len() == 0);
}

/// The state index of a built file leads to the state.
proof fn lemma_state_offset(v: EraBuilderView)
    requires
        v.fits(),
        v.state is Some,
        e2store::file_bytes(v.entries()).len() <= u64::MAX,
    ensures
        crate::write::offset_from(v.state_index_pos(), v.state_pos() as int) != 0,
        bytes::wrap64(
            v.state_index_pos() + crate::write::offset_from(
                v.state_index_pos(),
                v.state_pos() as int,
            ),
        ) == v.state_pos(),
        v.state_index_pos() <= u64::MAX,
{
    lemma_builder_entries(v);
    let entries = v.entries();
    let k = v.content().len() as int;
    era::lemma_index_len(v.block_index());
    crate::verify::scan::lemma_entry_pos_step(entries, k);
    if v.blocks.len() > 0 {
        crate::write::lemma_slot_range(v.blocks);
    }
    offset_leads_back(v.state_index_pos(), v.state_pos() as int);
}

/// The typed entries of a built file from the block at `i` on, when all data
/// decompress.
pub open spec fn typed_entries(v: EraBuilderView, i: int) -> Seq<TypedEntryView>
    decreases v.blocks.len() - i,
{
    if i < v.blocks.len() {
        seq![
            TypedEntryView::BeaconBlock { data: era::snappy_decoded(v.blocks[i].1)->Ok_0 },
        ] + typed_entries(v, i + 1)
    } else {
        match v.state {
            None => seq![TypedEntryView::BlockIndex { index: v.block_index() }],
            Some(s) => seq![
                TypedEntryView::BeaconState { data: era::snappy_decoded(s.1)->Ok_0 },
            ] + (seq![TypedEntryView::BlockIndex { index: v.block_index() }] + seq![
                TypedEntryView::StateIndex { index: v.state_index(s.0) },
            ]),
        }
    }
}

proof fn lemma_reader_entry(
    entries: Seq<EntryView>,
    i: int,
    format: Option<EraFormat>,
    seen: bool,
    t: TypedEntryView,
)
    requires
        e2store::all_wf(entries),
        0 <= i < entries.len(),
        typed::typed_of(typed::index_resolved(entries[i], seen)) == Ok::<TypedEntryView, ErrorView>(
            t,
        ),
    ensures
        ({
            let next = reader_at(
                entries,
                i + 1,
                format_after(format, entries[i]),
                seen || entries[i].header.typ == types::TYPE_SLOT_INDEX,
            );
            &&& reader_at(entries, i, format, seen).entries() == seq![t] + next.entries()
            &&& reader_at(entries, i, format, seen).failure() == next.failure()
        }),
{
    lemma_reader_step(entries, i, format, seen);
    entry_found(entries, i);
}

proof fn lemma_reader_end(entries: Seq<EntryView>, format: Option<EraFormat>, seen: bool)
    ensures
        reader_at(entries, entries.len() as int, format, seen).entries() == Seq::<
            TypedEntryView,
        >::empty(),
        reader_at(entries, entries.len() as int, format, seen).failure() is None,
{
    assert(entries.skip(entries.len() as int) =~= Seq::empty());
}

/// A slot index is a block index or a state index by its place.
proof fn lemma_typed_index(idx: SlotIndexView, seen: bool)
    ensures
        typed::typed_of(
            typed::index_resolved(e2store::entry_of(types::TYPE_SLOT_INDEX, idx.encoded()), seen),
        ) == Ok::<TypedEntryView, ErrorView>(
            if seen {
                TypedEntryView::StateIndex { index: idx }
            } else {
                TypedEntryView::BlockIndex { index: idx }
            },
        ),
{
    types::lemma_type_codes();
    era::slot_index_roundtrip(idx);
}

proof fn lemma_typed_state(data: Seq<u8>)
    requires
        era::snappy_decoded(data) is Ok,
    ensures
        typed::typed_of(
            typed::index_resolved(
                e2store::entry_of(types::TYPE_COMPRESSED_BEACON_STATE, data),
                false,
            ),
        ) == Ok::<TypedEntryView, ErrorView>(
            TypedEntryView::BeaconState { data: era::snappy_decoded(data)->Ok_0 },
        ),
{
    types::lemma_type_codes();
}

/// What is left is one entry.
proof fn lemma_last_entry(
    entries: Seq<EntryView>,
    n: int,
    format: Option<EraFormat>,
    seen: bool,
    t: TypedEntryView,
)
    requires
        e2store::all_wf(entries),
        0 <= n,
        entries.len() == n + 1,
        typed::typed_of(typed::index_resolved(entries[n], seen)) == Ok::<TypedEntryView, ErrorView>(
            t,
        ),
    ensures
        reader_at(entries, n, format, seen).entries() == seq![t],
        reader_at(entries, n, format, seen).failure() is None,
{
    let next_seen = seen || entries[n].header.typ == types::TYPE_SLOT_INDEX;
    lemma_reader_entry(entries, n, format, seen, t);
    lemma_reader_end(entries, format_after(format, entries[n]), next_seen);
    assert(seq![t] + Seq::empty() =~= seq![t]);
}

/// What is left are the two indexes.
proof fn lemma_last_indexes(
    entries: Seq<EntryView>,
    n: int,
    format: Option<EraFormat>,
    block_index: SlotIndexView,
    state_index: SlotIndexView,
)
    requires
        e2store::all_wf(entries),
        0 <= n,
        entries.len() == n + 2,
        entries[n] == e2store::entry_of(types::TYPE_SLOT_INDEX, block_index.encoded()),
        entries[n + 1] == e2store::entry_of(types::TYPE_SLOT_INDEX, state_index.encoded()),
    ensures
        reader_at(entries, n, format, false).entries() == seq![
            TypedEntryView::BlockIndex { index: block_index },
        ] + seq![TypedEntryView::StateIndex { index: state_index }],
        reader_at(entries, n, format, false).failure() is None,
{
    let t1 = TypedEntryView::BlockIndex { index: block_index };
    let t2 = TypedEntryView::StateIndex { index: state_index };
    let f = format_after(format, entries[n]);
    assert(typed::typed_of(typed::index_resolved(entries[n], false)) == Ok::<
        TypedEntryView,
        ErrorView,
    >(t1)) by {
        lemma_typed_index(block_index, false);
    }
    assert(typed::typed_of(typed::index_resolved(entries[n + 1], true)) == Ok::<
        TypedEntryView,
        ErrorView,
    >(t2)) by {
        lemma_typed_index(state_index, true);
    }
    lemma_last_entry(entries, n + 1, f, true, t2);
    lemma_reader_entry(entries, n, format, false, t1);
}

/// The typed entries after the blocks, if there is a state.
proof fn lemma_typed_state_tail(
    entries: Seq<EntryView>,
    n: int,
    format: Option<EraFormat>,
    state: Seq<u8>,
    block_index: SlotIndexView,
    state_index: SlotIndexView,
)
    requires
        e2store::all_wf(entries),
        0 <= n,
        entries.len() == n + 3,
        era::snappy_decoded(state) is Ok,
        entries[n] == e2store::entry_of(types::TYPE_COMPRESSED_BEACON_STATE, state),
        entries[n + 1] == e2store::entry_of(types::TYPE_SLOT_INDEX, block_index.encoded()),
        entries[n + 2] == e2store::entry_of(types::TYPE_SLOT_INDEX, state_index.encoded()),
    ensures
        reader_at(entries, n, format, false).entries() == seq![
            TypedEntryView::BeaconState { data: era::snappy_decoded(state)->Ok_0 },
        ] + (seq![TypedEntryView::BlockIndex { index: block_index }] + seq![
            TypedEntryView::StateIndex { index: state_index },
        ]),
        reader_at(entries, n, format, false).failure() is None,
{
    let t0 = TypedEntryView::BeaconState { data: era::snappy_decoded(state)->Ok_0 };
    let f = format_after(format, entries[n]);
    assert(types::TYPE_COMPRESSED_BEACON_STATE != types::TYPE_SLOT_INDEX) by {
        types::lemma_type_codes();
    }
    assert(typed::typed_of(typed::index_resolved(entries[n], false)) == Ok::<
        TypedEntryView,
        ErrorView,
    >(t0)) by {
        lemma_typed_state(state);
    }
    lemma_last_indexes(entries, n + 1, f, block_index, state_index);
    lemma_reader_entry(entries, n, format, false, t0);
}

/// The typed entries after the blocks.
proof fn lemma_typed_tail(v: EraBuilderView, format: Option<EraFormat>)
    requires
        v.fits(),
        decompression_error(v, v.blocks.len() as int) is None,
    ensures
        reader_at(v.entries(), 1 + v.blocks.len() as int, format, false).entries()
            == typed_entries(v, v.blocks.len() as int),
        reader_at(v.entries(), 1 + v.blocks.len() as int, format, false).failure() is None,
{
    lemma_builder_entries(v);
    let entries = v.entries();
    let n = 1 + v.blocks.len() as int;
    match v.state {
        None => {
            lemma_typed_index(v.block_index(), false);
            lemma_last_entry(
                entries,
                n,
                format,
                false,
                TypedEntryView::BlockIndex { index: v.block_index() },
            );
        },
        Some(s) => {
            lemma_typed_state_tail(
                entries,
                n,
                format,
                s.1,
                v.block_index(),
                v.state_index(s.0),
            );
        },
    }
}

proof fn lemma_typed_from(v: EraBuilderView, i: int, format: Option<EraFormat>)
    requires
        v.fits(),
        0 <= i <= v.blocks.len(),
        decompression_error(v, i) is None,
    ensures
        reader_at(v.entries(), 1 + i, format, false).entries() == typed_entries(v, i),
        reader_at(v.entries(), 1 + i, format, false).failure() is None,
    decreases v.blocks.len() - i,
{
    let entries = v.entries();
    if i < v.blocks.len() {
        types::lemma_type_codes();
        lemma_builder_entries(v);
        assert(entries[1 + i] == e2store::entry_of(
            types::TYPE_COMPRESSED_SIGNED_BEACON_BLOCK,
            v.blocks[i].1,
        ));
        lemma_typed_block(v.blocks[i].1);
        let data = era::snappy_decoded(v.blocks[i].1)->Ok_0;
        lemma_reader_entry(entries, 1 + i, format, false, TypedEntryView::BeaconBlock { data });
        lemma_typed_from(v, i + 1, format_after(format, entries[1 + i]));
    } else {
        lemma_typed_tail(v, format);
    }
}

/// Reading the typed entries of a built file whose data decompress gives its
/// blocks, its state, its block index and its state index.
pub proof fn built_entries_typed(v: EraBuilderView)
    requires
        v.fits(),
        decompression_error(v, 0) is None,
    ensures
        EraReaderView::start(e2store::file_bytes(v.entries())).entries() == typed_entries(v, 0),
        EraReaderView::start(e2store::file_bytes(v.entries())).failure() is None,
{
    lemma_builder_entries(v);
    let entries = v.entries();
    let start = EraReaderView::start(e2store::file_bytes(entries));
    let here = reader_at(entries, 1, None, false);
    entry_found(entries, 0);
    assert(entries.skip(0) =~= entries);
    assert(start.past_version() == here);
    lemma_typed_from(v, 0, None);
}

} // verus!
