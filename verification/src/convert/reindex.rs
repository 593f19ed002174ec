//! Fast re-indexing of ERA/ERA1 files.
//!
//! Reads entries sequentially and writes them back with newly calculated
//! indexes. Does not decompress block data.

use vstd::prelude::*;

use crate::bytes;
use crate::convert::strip::StripConfig;
use crate::error;
use crate::error::{Error, ErrorView};
use crate::format::e2store;
use crate::format::e2store::{E2StoreReader, Entry, EntryView};
use crate::format::era;
use crate::format::era::{SlotIndex, SlotIndexView};
use crate::format::types;
use crate::model;
use crate::read::random;

verus! {

/// Whether entries of this type are indexes.
pub open spec fn any_index_type(typ: [u8; 2]) -> bool {
    typ == types::TYPE_BLOCK_INDEX || typ == types::TYPE_STATE_INDEX || typ
        == types::TYPE_SLOT_INDEX
}

/// Whether entries of this type start a block.
pub open spec fn block_entry_type(typ: [u8; 2]) -> bool {
    typ == types::TYPE_COMPRESSED_SIGNED_BEACON_BLOCK || typ == types::TYPE_COMPRESSED_HEADER
}

/// See [`block_entry_type`].
pub fn is_block_entry(typ: [u8; 2]) -> (r: bool)
    ensures
        r == block_entry_type(typ),
{
    types::same_type(typ, types::TYPE_COMPRESSED_SIGNED_BEACON_BLOCK) || types::same_type(
        typ,
        types::TYPE_COMPRESSED_HEADER,
    )
}

/// Where the indexes of a file start.
#[verifier::ext_equal]
pub struct IndexPlaces {
    /// The last block index.
    pub block: Option<u64>,
    /// The last state index.
    pub state: Option<u64>,
    /// The first generic slot index.
    pub first_slot: Option<u64>,
    /// The last generic slot index after the first.
    pub later_slot: Option<u64>,
}

impl IndexPlaces {
    /// Nothing has been seen.
    pub open spec fn none() -> IndexPlaces {
        IndexPlaces { block: None, state: None, first_slot: None, later_slot: None }
    }

    /// The places after a header of type `typ` at byte `pos`.
    pub open spec fn with(self, typ: [u8; 2], pos: u64) -> IndexPlaces {
        if typ == types::TYPE_BLOCK_INDEX {
            IndexPlaces { block: Some(pos), ..self }
        } else if typ == types::TYPE_STATE_INDEX {
            IndexPlaces { state: Some(pos), ..self }
        } else if typ == types::TYPE_SLOT_INDEX {
            if self.first_slot is Some {
                IndexPlaces { later_slot: Some(pos), ..self }
            } else {
                IndexPlaces { first_slot: Some(pos), ..self }
            }
        } else {
            self
        }
    }

    /// The index of the blocks: the last block index, or the first generic slot
    /// index if there is no block index.
    pub open spec fn of_blocks(self) -> Option<u64> {
        if self.block is Some {
            self.block
        } else {
            self.first_slot
        }
    }

    /// The index of the state: the last state index, or the last generic slot
    /// index after the first if there is no state index.
    pub open spec fn of_state(self) -> Option<u64> {
        if self.state is Some {
            self.state
        } else {
            self.later_slot
        }
    }
}

/// Where the indexes of the file `data` start, given those before byte `pos`.
pub open spec fn index_places(data: Seq<u8>, pos: nat, before: IndexPlaces) -> Result<
    IndexPlaces,
    ErrorView,
>
    decreases data.len() - pos,
{
    match e2store::next_header_of(random::bytes_from(data, pos as int)) {
        Err(e) => Err(ErrorView::Io(e)),
        Ok(None) => Ok(before),
        Ok(Some(h)) => {
            let places = before.with(h.typ, pos as u64);
            if pos + 8 + h.length <= data.len() {
                index_places(data, pos + 8 + h.length as nat, places)
            } else {
                Ok(places)
            }
        },
    }
}

/// The slots that have a block by the first `n` offsets of an index.
pub open spec fn used_slot_list(idx: SlotIndexView, n: int) -> Seq<u64>
    decreases n,
{
    if n <= 0 {
        Seq::empty()
    } else if idx.offsets[n - 1] != 0 {
        used_slot_list(idx, n - 1).push(bytes::wrap64(idx.starting_slot + (n - 1)))
    } else {
        used_slot_list(idx, n - 1)
    }
}

/// The slots that have a block by an index.
pub open spec fn slots_of(idx: SlotIndexView) -> Seq<u64> {
    used_slot_list(idx, idx.offsets.len() as int)
}

/// The slots that have a block.
pub fn used_slots_of(idx: &SlotIndex) -> (slots: Vec<u64>)
    ensures
        slots@ == slots_of(idx@),
{
    let mut slots: Vec<u64> = Vec::new();
    let mut i: usize = 0;
    while i < idx.offsets.len()
        invariant
            i <= idx.offsets@.len(),
            slots@ == used_slot_list(idx@, i as int),
        decreases idx.offsets@.len() - i,
    {
        if idx.offsets[i] != 0 {
            slots.push(bytes::wrapping_sum(idx.starting_slot, i as u64));
        }
        i = i + 1;
    }
    slots
}

/// The index at byte `place` of the file, if there is one and it decodes.
pub open spec fn index_at(data: Seq<u8>, place: Option<u64>) -> Result<
    Option<SlotIndexView>,
    ErrorView,
> {
    match place {
        None => Ok(None),
        Some(pos) => match e2store::next_entry_of(random::bytes_from(data, pos as int)) {
            Err(e) => Err(ErrorView::Io(e)),
            Ok(None) => Ok(None),
            Ok(Some(e)) => match era::slot_index_of(e.data) {
                Ok(idx) => Ok(Some(idx)),
                Err(_) => Ok(None),
            },
        },
    }
}

/// The slots of the blocks, and the slot of the state, by the indexes of a file.
pub open spec fn metadata_of(data: Seq<u8>) -> Result<(Seq<u64>, Option<u64>), ErrorView> {
    match index_places(data, 0, IndexPlaces::none()) {
        Err(e) => Err(e),
        Ok(places) => match index_at(data, places.of_blocks()) {
            Err(e) => Err(e),
            Ok(block) => match index_at(data, places.of_state()) {
                Err(e) => Err(e),
                Ok(state) => Ok(
                    (
                        match block {
                            Some(idx) => slots_of(idx),
                            None => Seq::empty(),
                        },
                        match state {
                            Some(idx) => Some(idx.starting_slot),
                            None => None,
                        },
                    ),
                ),
            },
        },
    }
}

/// The slot of the block at `k`: what the index says, and then a plain count.
pub open spec fn assigned_slot(slots: Seq<u64>, k: int) -> u64 {
    if k < slots.len() {
        slots[k]
    } else {
        k as u64
    }
}

/// The slots of `n` blocks.
pub open spec fn assigned_slots(slots: Seq<u64>, n: nat) -> Seq<u64> {
    Seq::new(n, |k: int| assigned_slot(slots, k))
}

/// See [`assigned_slot`].
pub fn slot_for(slots: &Vec<u64>, k: usize) -> (slot: u64)
    ensures
        slot == assigned_slot(slots@, k as int),
{
    if k < slots.len() {
        slots[k]
    } else {
        k as u64
    }
}

/// The entries that stay, apart from version and indexes.
pub open spec fn kept(entries: Seq<EntryView>, config: StripConfig) -> Seq<EntryView>
    decreases entries.len(),
{
    if entries.len() == 0 {
        Seq::empty()
    } else {
        let front = kept(entries.drop_last(), config);
        let e = entries.last();
        if any_index_type(e.header.typ) || !config.keeps(e.header.typ) {
            front
        } else {
            front.push(e)
        }
    }
}

/// How many of `entries` start a block.
pub open spec fn block_total(entries: Seq<EntryView>) -> nat
    decreases entries.len(),
{
    if entries.len() == 0 {
        0
    } else {
        block_total(entries.drop_last()) + if block_entry_type(entries.last().header.typ) {
            1nat
        } else {
            0nat
        }
    }
}

/// Where the blocks start in a file that holds `entries`.
pub open spec fn block_places(entries: Seq<EntryView>) -> Seq<nat>
    decreases entries.len(),
{
    if entries.len() == 0 {
        Seq::empty()
    } else {
        let front = block_places(entries.drop_last());
        if block_entry_type(entries.last().header.typ) {
            front.push(e2store::file_bytes(entries.drop_last()).len())
        } else {
            front
        }
    }
}

/// Where the last state starts in a file that holds `entries`.
pub open spec fn state_place(entries: Seq<EntryView>) -> Option<nat>
    decreases entries.len(),
{
    if entries.len() == 0 {
        None
    } else if entries.last().header.typ == types::TYPE_COMPRESSED_BEACON_STATE {
        Some(e2store::file_bytes(entries.drop_last()).len())
    } else {
        state_place(entries.drop_last())
    }
}

/// Whether blocks of these slots can be indexed: none lies before the first or
/// after the last, and the index fits in an entry.
pub open spec fn indexable(slots: Seq<u64>) -> bool {
    slots.len() > 0 ==> {
        &&& forall|k: int|
            0 <= k < slots.len() ==> slots[0] <= #[trigger] slots[k] <= slots.last()
        &&& 16 + 8 * (slots.last() - slots[0] + 1) <= u32::MAX
    }
}

/// The offset that leads from an index at `index_pos` to the last of the first
/// `n` blocks that has this slot, or 0.
pub open spec fn offset_for(
    slots: Seq<u64>,
    places: Seq<nat>,
    index_pos: int,
    slot: int,
    n: int,
) -> i64
    decreases n,
{
    if n <= 0 {
        0
    } else if slots[n - 1] == slot {
        crate::write::offset_from(index_pos, places[n - 1] as int)
    } else {
        offset_for(slots, places, index_pos, slot, n - 1)
    }
}

/// The index of blocks with these slots that start at these places.
pub open spec fn index_of_blocks(slots: Seq<u64>, places: Seq<nat>, index_pos: int) -> SlotIndexView {
    let offsets = if slots.len() == 0 {
        Seq::empty()
    } else {
        Seq::new(
            (slots.last() - slots[0] + 1) as nat,
            |k: int| offset_for(slots, places, index_pos, slots[0] + k, slots.len() as int),
        )
    };
    SlotIndexView {
        starting_slot: if slots.len() == 0 {
            0
        } else {
            slots[0]
        },
        offsets,
        count: era::used_slots(offsets) as u64,
    }
}

/// The block index of a file that holds `content`.
pub open spec fn rebuilt_block_index(content: Seq<EntryView>, slots: Seq<u64>) -> SlotIndexView {
    index_of_blocks(
        assigned_slots(slots, block_total(content)),
        block_places(content),
        e2store::file_bytes(content).len() as int,
    )
}

/// The state index of a file that holds `entries`, for a state at byte `place`.
pub open spec fn rebuilt_state_index(
    entries: Seq<EntryView>,
    slot: u64,
    place: nat,
) -> SlotIndexView {
    let offsets = seq![
        crate::write::offset_from(e2store::file_bytes(entries).len() as int, place as int),
    ];
    SlotIndexView { starting_slot: slot, offsets, count: era::used_slots(offsets) as u64 }
}

/// `content` with its block index.
pub open spec fn with_block_index(content: Seq<EntryView>, slots: Seq<u64>) -> Seq<EntryView> {
    content.push(
        e2store::entry_of(
            types::TYPE_BLOCK_INDEX,
            rebuilt_block_index(content, slots).encoded(),
        ),
    )
}

/// `content` with its indexes: that of the blocks, and that of the state if
/// there is one.
pub open spec fn with_indexes(
    content: Seq<EntryView>,
    slots: Seq<u64>,
    state_slot: Option<u64>,
) -> Seq<EntryView> {
    let entries = with_block_index(content, slots);
    match state_place(content) {
        None => entries,
        Some(place) => entries.push(
            e2store::entry_of(
                types::TYPE_STATE_INDEX,
                rebuilt_state_index(
                    entries,
                    match state_slot {
                        Some(slot) => slot,
                        None => 0,
                    },
                    place,
                ).encoded(),
            ),
        ),
    }
}

/// What stays of the file `data`: the version and the entries that are kept.
pub open spec fn content_of(data: Seq<u8>, config: StripConfig) -> Seq<EntryView> {
    let entries = e2store::stream_entries(data);
    seq![entries[0]] + kept(entries.skip(1), config)
}

/// What [`reindex`] and strip return.
pub open spec fn result_of(data: Seq<u8>) -> Result<(), ErrorView> {
    match metadata_of(data) {
        Err(e) => Err(e),
        Ok(_) => match e2store::next_entry_of(data) {
            Err(e) => Err(ErrorView::Io(e)),
            Ok(None) => Err(error::missing_version_view()),
            Ok(Some(first)) => if first.header.typ != types::TYPE_VERSION {
                Err(error::missing_version_view())
            } else {
                match e2store::stream_failure(data) {
                    Some(e) => Err(ErrorView::Io(e)),
                    None => Ok(()),
                }
            },
        },
    }
}

/// The entries that [`reindex`] and strip write: the whole new file, or its
/// content up to the place where `data` cannot be read.
pub open spec fn entries_written(data: Seq<u8>, config: StripConfig) -> Seq<EntryView> {
    match metadata_of(data) {
        Err(_) => Seq::empty(),
        Ok((slots, state_slot)) => match e2store::next_entry_of(data) {
            Ok(Some(first)) => if first.header.typ != types::TYPE_VERSION {
                Seq::empty()
            } else if e2store::stream_failure(data) is Some {
                content_of(data, config)
            } else {
                with_indexes(content_of(data, config), slots, state_slot)
            },
            _ => Seq::empty(),
        },
    }
}

/// The bytes that [`reindex`] and strip write.
pub open spec fn output_of(data: Seq<u8>, config: StripConfig) -> Seq<u8> {
    e2store::file_bytes(entries_written(data, config))
}

/// Whether the blocks of a file that can be read can be indexed.
pub open spec fn reindexable(data: Seq<u8>) -> bool {
    result_of(data) is Ok ==> indexable(
        assigned_slots(metadata_of(data)->Ok_0.0, block_total(e2store::stream_entries(data).skip(1))),
    )
}

/// What is left out starts no block.
pub proof fn lemma_kept_blocks(entries: Seq<EntryView>, config: StripConfig)
    ensures
        block_total(kept(entries, config)) == block_total(entries),
    decreases entries.len(),
{
    types::lemma_type_codes();
    if entries.len() > 0 {
        lemma_kept_blocks(entries.drop_last(), config);
        let front = kept(entries.drop_last(), config);
        assert(front.push(entries.last()).drop_last() =~= front);
    }
}

/// Each block has a place.
pub proof fn lemma_places_len(entries: Seq<EntryView>)
    ensures
        block_places(entries).len() == block_total(entries),
    decreases entries.len(),
{
    if entries.len() > 0 {
        lemma_places_len(entries.drop_last());
    }
}

/// Putting a version first adds no block.
pub proof fn lemma_version_blocks(version: EntryView, rest: Seq<EntryView>)
    requires
        version.header.typ == types::TYPE_VERSION,
    ensures
        block_total(seq![version] + rest) == block_total(rest),
    decreases rest.len(),
{
    types::lemma_type_codes();
    reveal_with_fuel(block_total, 2);
    let all = seq![version] + rest;
    if rest.len() == 0 {
        assert(all.drop_last() =~= Seq::empty());
    } else {
        assert(all.drop_last() =~= seq![version] + rest.drop_last());
        lemma_version_blocks(version, rest.drop_last());
    }
}

/// A place, or another if there is none.
fn place_or(place: Option<u64>, other: Option<u64>) -> (r: Option<u64>)
    ensures
        r == if place is Some {
            place
        } else {
            other
        },
{
    if place.is_some() {
        place
    } else {
        other
    }
}

/// Find where the indexes start, by a header-only scan.
fn find_places(reader: &[u8]) -> (r: Result<(Option<u64>, Option<u64>), Error>)
    ensures
        match r {
            Ok(p) => index_places(reader@, 0, IndexPlaces::none()) matches Ok(places)
                && places.of_blocks() == p.0 && places.of_state() == p.1,
            Err(e) => index_places(reader@, 0, IndexPlaces::none()) matches Err(f) && f == e@,
        },
{
    let mut scanner = E2StoreReader::new(reader);
    let mut block: Option<u64> = None;
    let mut state: Option<u64> = None;
    let mut first_slot: Option<u64> = None;
    let mut later_slot: Option<u64> = None;
    let mut pos: u64 = 0;
    let total: u64 = reader.len() as u64;
    assert(random::bytes_from(reader@, 0) =~= reader@);
    loop
        invariant
            reader@.len() == total,
            pos <= total,
            scanner@ == random::bytes_from(reader@, pos as int),
            index_places(reader@, 0, IndexPlaces::none()) == index_places(
                reader@,
                pos as nat,
                IndexPlaces { block, state, first_slot, later_slot },
            ),
        decreases scanner@.len(),
    {
        let ghost rest = scanner@;
        let ghost before = IndexPlaces { block, state, first_slot, later_slot };
        let header = match scanner.next_header_only() {
            Err(e) => {
                return Err(Error::Io(e));
            },
            Ok(None) => {
                return Ok((place_or(block, first_slot), place_or(state, later_slot)));
            },
            Ok(Some(header)) => header,
        };
        if types::same_type(header.typ, types::TYPE_BLOCK_INDEX) {
            block = Some(pos);
        } else if types::same_type(header.typ, types::TYPE_STATE_INDEX) {
            state = Some(pos);
        } else if types::same_type(header.typ, types::TYPE_SLOT_INDEX) {
            if first_slot.is_some() {
                later_slot = Some(pos);
            } else {
                first_slot = Some(pos);
            }
        }
        let ghost places = IndexPlaces { block, state, first_slot, later_slot };
        assert(places == before.with(header.typ, pos));
        let step: u64 = 8 + header.length as u64;
        if step > total - pos {
            return Ok((place_or(block, first_slot), place_or(state, later_slot)));
        }
        pos = pos + step;
        assert(scanner@ =~= random::bytes_from(reader@, pos as int));
    }
}

/// Read the index at byte `place`, if there is one and it decodes.
fn read_index(reader: &[u8], place: Option<u64>) -> (r: Result<Option<SlotIndex>, Error>)
    ensures
        model::found_view(r) == index_at(reader@, place),
{
    let pos: u64 = match place {
        None => {
            return Ok(None);
        },
        Some(pos) => pos,
    };
    let mut e2s = E2StoreReader::new(random::slice_from(reader, pos));
    match e2s.next_entry() {
        Err(e) => Err(Error::Io(e)),
        Ok(None) => Ok(None),
        Ok(Some(e)) => match SlotIndex::decode(e.data.as_slice()) {
            Ok(idx) => Ok(Some(idx)),
            Err(_) => Ok(None),
        },
    }
}

/// Extract slot list and state slot from the old indexes.
pub fn extract_index_metadata(reader: &[u8]) -> (r: Result<(Vec<u64>, Option<u64>), Error>)
    ensures
        match r {
            Ok(m) => metadata_of(reader@) matches Ok(v) && v.0 == m.0@ && v.1 == m.1,
            Err(e) => metadata_of(reader@) matches Err(f) && f == e@,
        },
{
    let (block_place, state_place) = match find_places(reader) {
        Ok(p) => p,
        Err(e) => {
            return Err(e);
        },
    };
    let slots = match read_index(reader, block_place) {
        Err(e) => {
            return Err(e);
        },
        Ok(Some(idx)) => used_slots_of(&idx),
        Ok(None) => {
            let none: Vec<u64> = Vec::new();
            assert(none@ =~= Seq::empty());
            none
        },
    };
    let state_slot = match read_index(reader, state_place) {
        Err(e) => {
            return Err(e);
        },
        Ok(Some(idx)) => Some(idx.starting_slot),
        Ok(None) => None,
    };
    Ok((slots, state_slot))
}

/// Build the index of blocks with these slots that start at these places.
pub fn build_block_index(slots: &Vec<u64>, places: &Vec<usize>, index_pos: usize) -> (idx: SlotIndex)
    requires
        slots@.len() == places@.len(),
        indexable(slots@),
    ensures
        idx@ == index_of_blocks(
            slots@,
            Seq::new(places@.len(), |k: int| places@[k] as nat),
            index_pos as int,
        ),
{
    let ghost p = Seq::new(places@.len(), |k: int| places@[k] as nat);
    if slots.len() == 0 {
        let offsets: Vec<i64> = Vec::new();
        assert(offsets@ =~= Seq::empty());
        return SlotIndex::new(0, offsets);
    }
    let last: usize = slots.len() - 1;
    let low: u64 = slots[0];
    let high: u64 = slots[last];
    let span: u64 = high - low + 1;
    let mut offsets: Vec<i64> = Vec::new();
    while offsets.len() < span as usize
        invariant
            offsets@.len() <= span,
            span <= u32::MAX,
            forall|k: int| 0 <= k < offsets@.len() ==> #[trigger] offsets@[k] == 0,
        decreases span - offsets@.len(),
    {
        offsets.push(0);
    }
    let mut i: usize = 0;
    while i < slots.len()
        invariant
            i <= slots@.len(),
            slots@.len() == places@.len(),
            slots@.len() > 0,
            low == slots@[0],
            high == slots@.last(),
            span == high - low + 1,
            span <= u32::MAX,
            indexable(slots@),
            p == Seq::new(places@.len(), |k: int| places@[k] as nat),
            offsets@.len() == span,
            forall|k: int|
                0 <= k < span ==> #[trigger] offsets@[k] == offset_for(
                    slots@,
                    p,
                    index_pos as int,
                    low + k,
                    i as int,
                ),
        decreases slots@.len() - i,
    {
        let ghost before = offsets@;
        let slot: u64 = slots[i];
        let k: usize = (slot - low) as usize;
        let offset: i64 = crate::write::offset_between(index_pos, places[i]);
        offsets.set(k, offset);
        proof {
            assert forall|j: int| 0 <= j < span implies #[trigger] offsets@[j] == offset_for(
                slots@,
                p,
                index_pos as int,
                low + j,
                i + 1,
            ) by {
                if j != k {
                    assert(offsets@[j] == before[j]);
                }
            }
        }
        i = i + 1;
    }
    let idx = SlotIndex::new(low, offsets);
    assert(idx@.offsets =~= index_of_blocks(slots@, p, index_pos as int).offsets);
    idx
}

/// Whether [`reindex`] and strip can number the blocks of this file. Where
/// they cannot, the slots of the blocks are out of order, or too far apart for
/// an index.
pub fn can_reindex(reader: &[u8]) -> (r: bool)
    ensures
        r == reindexable(reader@),
{
    let (slots, _) = match extract_index_metadata(reader) {
        Ok(m) => m,
        Err(_) => {
            return true;
        },
    };
    let mut e2s = E2StoreReader::new(reader);
    match e2s.next_entry() {
        Ok(Some(first)) => {
            if !first.header.is_version() {
                return true;
            }
        },
        _ => {
            return true;
        },
    }
    let ghost entries = e2store::stream_entries(reader@);
    let ghost mut tail: Seq<EntryView> = Seq::empty();
    let mut assigned: Vec<u64> = Vec::new();
    proof {
        assert(entries.skip(1) =~= tail + e2store::stream_entries(e2s@));
        assert(assigned@ =~= assigned_slots(slots@, 0));
    }
    loop
        invariant
            entries == e2store::stream_entries(reader@),
            entries.skip(1) == tail + e2store::stream_entries(e2s@),
            e2store::stream_failure(reader@) == e2store::stream_failure(e2s@),
            assigned@ == assigned_slots(slots@, block_total(tail)),
            metadata_of(reader@) matches Ok(m) && m.0 == slots@,
            e2store::next_entry_of(reader@) matches Ok(Some(e)) && e.header.typ
                == types::TYPE_VERSION,
        ensures
            entries == e2store::stream_entries(reader@),
            entries.skip(1) == tail,
            result_of(reader@) is Ok,
            assigned@ == assigned_slots(slots@, block_total(tail)),
            metadata_of(reader@) matches Ok(m) && m.0 == slots@,
        decreases e2s@.len(),
    {
        match e2s.next_entry() {
            Err(_) => {
                return true;
            },
            Ok(None) => {
                assert(tail + Seq::empty() =~= tail);
                break;
            },
            Ok(Some(e)) => {
                let k: usize = assigned.len();
                if is_block_entry(e.header.typ) {
                    assigned.push(slot_for(&slots, k));
                }
                proof {
                    let before = tail;
                    tail = tail.push(e@);
                    assert(tail.drop_last() =~= before);
                    assert(entries.skip(1) =~= tail + e2store::stream_entries(e2s@));
                    assert(assigned@ =~= assigned_slots(slots@, block_total(tail)));
                }
            },
        }
    }
    check_indexable(&assigned)
}

fn check_indexable(slots: &Vec<u64>) -> (r: bool)
    ensures
        r == indexable(slots@),
{
    if slots.len() == 0 {
        return true;
    }
    let last: usize = slots.len() - 1;
    let low: u64 = slots[0];
    let high: u64 = slots[last];
    let mut i: usize = 0;
    while i < slots.len()
        invariant
            i <= slots@.len(),
            slots@.len() > 0,
            low == slots@[0],
            high == slots@.last(),
            forall|k: int| 0 <= k < i ==> low <= #[trigger] slots@[k] <= high,
        decreases slots@.len() - i,
    {
        if slots[i] < low || slots[i] > high {
            return false;
        }
        i = i + 1;
    }
    assert(low <= slots@[last as int]);
    high - low <= 0x1fff_fffc
}

/// What the indexes need to know of the entries that were copied.
struct Copied {
    block_slots: Vec<u64>,
    places: Vec<usize>,
    state_pos: Option<usize>,
}

impl Copied {
    /// Whether this is what the indexes need to know of `content`.
    spec fn describes(self, content: Seq<EntryView>, slots: Seq<u64>) -> bool {
        &&& self.block_slots@ == assigned_slots(slots, block_total(content))
        &&& Seq::new(self.places@.len(), |k: int| self.places@[k] as nat) == block_places(content)
        &&& state_place(content) == match self.state_pos {
            Some(pos) => Some(pos as nat),
            None => None,
        }
    }

    /// Nothing has been copied but the version.
    fn new(Ghost(version): Ghost<EntryView>, slots: &Vec<u64>) -> (c: Self)
        requires
            version.header.typ == types::TYPE_VERSION,
        ensures
            c.describes(seq![version], slots@),
    {
        let c = Copied { block_slots: Vec::new(), places: Vec::new(), state_pos: None };
        proof {
            types::lemma_type_codes();
            reveal_with_fuel(block_places, 2);
            reveal_with_fuel(state_place, 2);
            reveal_with_fuel(block_total, 2);
            assert(seq![version].drop_last() =~= Seq::empty());
            assert(block_places(seq![version]) =~= Seq::empty());
            assert(Seq::new(c.places@.len(), |k: int| c.places@[k] as nat) =~= Seq::empty());
            assert(c.block_slots@ =~= assigned_slots(slots@, 0));
        }
        c
    }

    /// Take note of an entry that is copied to byte `pos`.
    fn note(
        &mut self,
        Ghost(content): Ghost<Seq<EntryView>>,
        entry: &Entry,
        pos: usize,
        slots: &Vec<u64>,
    )
        requires
            old(self).describes(content, slots@),
            pos == e2store::file_bytes(content).len(),
        ensures
            final(self).describes(content.push(entry@), slots@),
    {
        let typ: [u8; 2] = entry.header.typ;
        let ghost before = Seq::new(self.places@.len(), |k: int| self.places@[k] as nat);
        proof {
            types::lemma_type_codes();
            lemma_places_len(content);
            assert(content.push(entry@).drop_last() =~= content);
        }
        if is_block_entry(typ) {
            let k: usize = self.places.len();
            self.block_slots.push(slot_for(slots, k));
            self.places.push(pos);
            assert(Seq::new(self.places@.len(), |k: int| self.places@[k] as nat) =~= before.push(
                pos as nat,
            ));
        } else if types::same_type(typ, types::TYPE_COMPRESSED_BEACON_STATE) {
            self.state_pos = Some(pos);
        }
        assert(self.block_slots@ =~= assigned_slots(slots@, block_total(content.push(entry@))));
    }
}

/// Append the version and the entries of `rest` that stay.
fn copy_content(
    version: &Entry,
    rest: &[u8],
    writer: &mut Vec<u8>,
    config: &StripConfig,
    slots: &Vec<u64>,
) -> (r: Result<Copied, Error>)
    requires
        version@.header.typ == types::TYPE_VERSION,
    ensures
        final(writer)@ == old(writer)@ + e2store::file_bytes(
            seq![version@] + kept(e2store::stream_entries(rest@), *config),
        ),
        match r {
            Ok(c) => e2store::stream_failure(rest@) is None && c.describes(
                seq![version@] + kept(e2store::stream_entries(rest@), *config),
                slots@,
            ),
            Err(e) => e2store::stream_failure(rest@) matches Some(f) && e@ == ErrorView::Io(f),
        },
{
    let ghost before = writer@;
    let start: usize = writer.len();
    let ghost head = seq![version@];
    let ghost mut tail: Seq<EntryView> = Seq::empty();
    let mut e2s = E2StoreReader::new(rest);
    crate::write::append_entry(writer, version);
    let mut copied = Copied::new(Ghost(version@), slots);
    proof {
        assert(tail + e2store::stream_entries(e2s@) =~= e2store::stream_entries(rest@));
        crate::write::lemma_single(version@);
        assert(head + kept(tail, *config) =~= head);
    }
    loop
        invariant
            e2store::stream_entries(rest@) == tail + e2store::stream_entries(e2s@),
            e2store::stream_failure(rest@) == e2store::stream_failure(e2s@),
            head == seq![version@],
            start == before.len(),
            before == old(writer)@,
            writer@ == before + e2store::file_bytes(head + kept(tail, *config)),
            copied.describes(head + kept(tail, *config), slots@),
        decreases e2s@.len(),
    {
        let ghost content = head + kept(tail, *config);
        let entry = match e2s.next_entry() {
            Err(e) => {
                assert(tail + Seq::empty() =~= tail);
                return Err(Error::Io(e));
            },
            Ok(None) => {
                assert(tail + Seq::empty() =~= tail);
                return Ok(copied);
            },
            Ok(Some(entry)) => entry,
        };
        let typ: [u8; 2] = entry.header.typ;
        proof {
            let next = tail.push(entry@);
            assert(next.drop_last() =~= tail);
            assert(tail + (seq![entry@] + e2store::stream_entries(e2s@)) =~= next
                + e2store::stream_entries(e2s@));
            tail = next;
        }
        // Always skip old indexes: new ones are written at the end
        if types::same_type(typ, types::TYPE_BLOCK_INDEX) || types::same_type(
            typ,
            types::TYPE_STATE_INDEX,
        ) || types::same_type(typ, types::TYPE_SLOT_INDEX) || !config.should_keep(&typ) {
            continue;
        }
        copied.note(Ghost(content), &entry, writer.len() - start, slots);
        crate::write::append_entry(writer, &entry);
        proof {
            let after = head + kept(tail, *config);
            assert(after =~= content.push(entry@));
            assert(after.drop_last() =~= content);
            assert(writer@ =~= before + (e2store::file_bytes(content) + entry@.encoded()));
        }
    }
}

/// Append the indexes of the file that starts at byte `start` of `writer` and
/// holds `content` so far.
fn append_indexes(
    copied: &Copied,
    writer: &mut Vec<u8>,
    start: usize,
    slots: &Vec<u64>,
    state_slot: Option<u64>,
    Ghost(content): Ghost<Seq<EntryView>>,
)
    requires
        start <= old(writer)@.len(),
        old(writer)@.skip(start as int) == e2store::file_bytes(content),
        copied.describes(content, slots@),
        indexable(assigned_slots(slots@, block_total(content))),
    ensures
        final(writer)@ == old(writer)@.take(start as int) + e2store::file_bytes(
            with_indexes(content, slots@, state_slot),
        ),
{
    let ghost before = writer@.take(start as int);
    proof {
        lemma_places_len(content);
        assert(writer@ =~= before + e2store::file_bytes(content));
    }
    let index_pos: usize = writer.len() - start;
    let block_index = build_block_index(&copied.block_slots, &copied.places, index_pos);
    proof {
        era::lemma_index_len(block_index@);
    }
    let entry = Entry::new(types::TYPE_BLOCK_INDEX, block_index.encode());
    crate::write::append_entry(writer, &entry);
    let ghost indexed = with_block_index(content, slots@);
    proof {
        assert(indexed.drop_last() =~= content);
        assert(writer@ =~= before + (e2store::file_bytes(content) + entry@.encoded()));
    }
    if let Some(abs_pos) = copied.state_pos {
        let slot: u64 = match state_slot {
            Some(slot) => slot,
            None => 0,
        };
        let state_index_pos: usize = writer.len() - start;
        let mut offsets: Vec<i64> = Vec::new();
        offsets.push(crate::write::offset_between(state_index_pos, abs_pos));
        let state_index = SlotIndex::new(slot, offsets);
        proof {
            assert(state_index@ =~= rebuilt_state_index(indexed, slot, abs_pos as nat));
            era::lemma_index_len(state_index@);
        }
        let entry = Entry::new(types::TYPE_STATE_INDEX, state_index.encode());
        crate::write::append_entry(writer, &entry);
        proof {
            let all = indexed.push(entry@);
            assert(all == with_indexes(content, slots@, state_slot));
            assert(all.drop_last() =~= indexed);
            assert(writer@ =~= before + (e2store::file_bytes(indexed) + entry@.encoded()));
        }
    }
}

/// Rebuilds indexes while leaving out entries that the configuration strips,
/// and appends the file to `writer`.
pub fn reindex_filtered(reader: &[u8], writer: &mut Vec<u8>, config: &StripConfig) -> (r: Result<
    (),
    Error,
>)
    requires
        reindexable(reader@),
    ensures
        model::outcome(r) == result_of(reader@),
        final(writer)@ == old(writer)@ + output_of(reader@, *config),
{
    let ghost before = writer@;
    assert(before + Seq::empty() =~= before);
    let (slots, state_slot) = match extract_index_metadata(reader) {
        Ok(m) => m,
        Err(e) => {
            return Err(e);
        },
    };
    let mut e2s = E2StoreReader::new(reader);
    let version = match e2s.next_entry() {
        Err(e) => {
            return Err(Error::Io(e));
        },
        Ok(None) => {
            return Err(Error::missing_version());
        },
        Ok(Some(version)) => version,
    };
    if !version.header.is_version() {
        return Err(Error::missing_version());
    }
    let start: usize = writer.len();
    let rest = e2s.into_inner();
    let ghost content = content_of(reader@, *config);
    proof {
        let entries = e2store::stream_entries(reader@);
        assert(entries.skip(1) =~= e2store::stream_entries(rest@));
        assert(content == seq![version@] + kept(e2store::stream_entries(rest@), *config));
    }
    let copied = match copy_content(&version, rest, writer, config, &slots) {
        Ok(copied) => copied,
        Err(e) => {
            return Err(e);
        },
    };
    proof {
        lemma_kept_blocks(e2store::stream_entries(rest@), *config);
        lemma_version_blocks(version@, kept(e2store::stream_entries(rest@), *config));
        assert(writer@.take(start as int) =~= before);
        assert(writer@.skip(start as int) =~= e2store::file_bytes(content));
    }
    append_indexes(&copied, writer, start, &slots, state_slot, Ghost(content));
    Ok(())
}

/// Rebuilds an ERA or ERA1 file with correct indexes and appends it to
/// `writer`.
///
/// Preserves entry order and slot numbering exactly.
pub fn reindex(reader: &[u8], writer: &mut Vec<u8>) -> (r: Result<(), Error>)
    requires
        reindexable(reader@),
    ensures
        model::outcome(r) == result_of(reader@),
        final(writer)@ == old(writer)@ + output_of(reader@, StripConfig::nothing()),
{
    reindex_filtered(reader, writer, &StripConfig::default())
}

} // verus!
