//! ERA file writer.
//!
//! Provides [`E2StoreWriter`] for low-level entry writing and [`EraBuilder`]
//! for constructing valid ERA files with correct index offsets.

pub mod laws;
pub mod layout;

use std::collections::HashMap;

use vstd::prelude::*;

use crate::bytes;
use crate::error::IoError;
use crate::format::e2store;
use crate::format::e2store::{Entry, EntryView};
use crate::format::era;
use crate::format::era::{SlotIndex, SlotIndexView};
use crate::format::types;
use crate::model;

verus! {

/// Writes e2store entries to a byte buffer.
///
/// Each entry is written as its 8-byte header followed by its data.
pub struct E2StoreWriter {
    writer: Vec<u8>,
}

impl View for E2StoreWriter {
    type V = Seq<u8>;

    /// The bytes that have been written.
    closed spec fn view(&self) -> Seq<u8> {
        self.writer@
    }
}

/// Append the bytes of an entry.
pub fn append_entry(out: &mut Vec<u8>, entry: &Entry)
    ensures
        final(out)@ == old(out)@ + entry@.encoded(),
{
    out.extend_from_slice(&entry.header.encode());
    out.extend_from_slice(entry.data.as_slice());
    assert(out@ =~= old(out)@ + entry@.encoded());
}

impl E2StoreWriter {
    pub fn new(writer: Vec<u8>) -> (w: Self)
        ensures
            w@ == writer@,
    {
        E2StoreWriter { writer }
    }

    /// Write a single entry.
    pub fn write_entry(&mut self, entry: &Entry) -> (r: Result<(), IoError>)
        ensures
            r is Ok,
            final(self)@ == old(self)@ + entry@.encoded(),
    {
        append_entry(&mut self.writer, entry);
        Ok(())
    }

    /// Write multiple entries in sequence.
    pub fn write_all(&mut self, entries: &[Entry]) -> (r: Result<(), IoError>)
        ensures
            r is Ok,
            final(self)@ == old(self)@ + e2store::file_bytes(model::views(entries@)),
    {
        let ghost before = self@;
        let mut i: usize = 0;
        assert(before + e2store::file_bytes(model::views(entries@).take(0)) =~= before);
        while i < entries.len()
            invariant
                i <= entries@.len(),
                self@ == before + e2store::file_bytes(model::views(entries@).take(i as int)),
            decreases entries@.len() - i,
        {
            let ghost so_far = model::views(entries@).take(i as int);
            match self.write_entry(&entries[i]) {
                Ok(()) => {},
                Err(e) => {
                    return Err(e);
                },
            }
            proof {
                let next = model::views(entries@).take(i + 1);
                assert(next.drop_last() =~= so_far);
                assert(self@ =~= before + (e2store::file_bytes(so_far)
                    + entries@[i as int]@.encoded()));
            }
            i = i + 1;
        }
        assert(model::views(entries@).take(i as int) =~= model::views(entries@));
        Ok(())
    }

    /// Unwrap the inner buffer.
    pub fn into_inner(self) -> (writer: Vec<u8>)
        ensures
            writer@ == self@,
    {
        self.writer
    }
}

/// Builds a valid ERA file with correct block and state index offsets.
///
/// Index offsets are relative to the index entry's position in the file.
///
/// # File layout
///
/// ```text
/// [Version]
/// [CompressedSignedBeaconBlock]...   one per block
/// [CompressedBeaconState]            optional, exactly one
/// [BlockIndex]
/// [StateIndex]                       present only if state is set
/// ```
pub struct EraBuilder {
    blocks: Vec<(u64, Vec<u8>)>,
    state: Option<(u64, Vec<u8>)>,
}

/// The model of [`EraBuilder`]: slots and compressed data.
#[verifier::ext_equal]
pub struct EraBuilderView {
    pub blocks: Seq<(u64, Seq<u8>)>,
    pub state: Option<(u64, Seq<u8>)>,
}

/// The model of a slot and its data.
pub open spec fn slot_data(p: (u64, Vec<u8>)) -> (u64, Seq<u8>) {
    (p.0, p.1@)
}

impl View for EraBuilder {
    type V = EraBuilderView;

    closed spec fn view(&self) -> EraBuilderView {
        EraBuilderView {
            blocks: Seq::new(self.blocks@.len(), |i: int| slot_data(self.blocks@[i])),
            state: match self.state {
                Some(p) => Some(slot_data(p)),
                None => None,
            },
        }
    }
}

/// The bytes that the entries of `blocks` take.
pub open spec fn blocks_size(blocks: Seq<(u64, Seq<u8>)>) -> nat
    decreases blocks.len(),
{
    if blocks.len() == 0 {
        0
    } else {
        blocks_size(blocks.drop_last()) + 8 + blocks.last().1.len()
    }
}

/// Where the block of a slot starts in the file, if there is one.
pub open spec fn block_pos(blocks: Seq<(u64, Seq<u8>)>, slot: u64) -> Option<nat>
    decreases blocks.len(),
{
    if blocks.len() == 0 {
        None
    } else if blocks.last().0 == slot {
        Some(8 + blocks_size(blocks.drop_last()))
    } else {
        block_pos(blocks.drop_last(), slot)
    }
}

/// The lowest slot of `blocks`.
pub open spec fn min_slot(blocks: Seq<(u64, Seq<u8>)>) -> u64
    decreases blocks.len(),
{
    if blocks.len() <= 1 {
        blocks.first().0
    } else {
        let m = min_slot(blocks.drop_last());
        if blocks.last().0 < m {
            blocks.last().0
        } else {
            m
        }
    }
}

/// The highest slot of `blocks`.
pub open spec fn max_slot(blocks: Seq<(u64, Seq<u8>)>) -> u64
    decreases blocks.len(),
{
    if blocks.len() <= 1 {
        blocks.first().0
    } else {
        let m = max_slot(blocks.drop_last());
        if blocks.last().0 > m {
            blocks.last().0
        } else {
            m
        }
    }
}

/// The offset from `base` to `pos`, as an index stores it.
pub open spec fn offset_from(base: int, pos: int) -> i64 {
    bytes::signed64(bytes::wrap64(pos - base) as nat) as i64
}

/// The entries of `blocks`, in order.
pub open spec fn block_entries(blocks: Seq<(u64, Seq<u8>)>) -> Seq<EntryView> {
    Seq::new(
        blocks.len(),
        |i: int| e2store::entry_of(types::TYPE_COMPRESSED_SIGNED_BEACON_BLOCK, blocks[i].1),
    )
}

impl EraBuilderView {
    /// No slot has two blocks.
    pub open spec fn wf(self) -> bool {
        forall|i: int, j: int|
            0 <= i < j < self.blocks.len() ==> (#[trigger] self.blocks[i]).0 != (
            #[trigger] self.blocks[j]).0
    }

    /// Whether some block has this slot.
    pub open spec fn has_slot(self, slot: u64) -> bool {
        exists|i: int| 0 <= i < self.blocks.len() && (#[trigger] self.blocks[i]).0 == slot
    }

    /// The builder with one more block.
    pub open spec fn with_block(self, slot: u64, data: Seq<u8>) -> EraBuilderView {
        EraBuilderView { blocks: self.blocks.push((slot, data)), state: self.state }
    }

    /// How many slots the block index covers.
    pub open spec fn slot_span(self) -> int {
        if self.blocks.len() == 0 {
            0
        } else {
            max_slot(self.blocks) - min_slot(self.blocks) + 1
        }
    }

    /// Every entry has room for its data: the blocks, the state and the index.
    pub open spec fn fits(self) -> bool {
        &&& forall|i: int|
            0 <= i < self.blocks.len() ==> (#[trigger] self.blocks[i]).1.len() <= u32::MAX
        &&& self.state matches Some(s) ==> s.1.len() <= u32::MAX
        &&& 16 + 8 * self.slot_span() <= u32::MAX
    }

    /// Where the state entry starts, or would start.
    pub open spec fn state_pos(self) -> nat {
        8 + blocks_size(self.blocks)
    }

    /// Where the block index starts.
    pub open spec fn index_pos(self) -> nat {
        self.state_pos() + match self.state {
            Some(s) => 8 + s.1.len(),
            None => 0nat,
        }
    }

    /// The block index: the offset of each slot's block from the index, and 0
    /// for a slot without a block.
    pub open spec fn block_index(self) -> SlotIndexView {
        SlotIndexView {
            starting_slot: if self.blocks.len() == 0 {
                0
            } else {
                min_slot(self.blocks)
            },
            offsets: Seq::new(self.slot_span() as nat, |k: int| self.offset_of(k)),
            count: self.slot_span() as u64,
        }
    }

    /// The offset at place `k` of the block index.
    pub open spec fn offset_of(self, k: int) -> i64 {
        match block_pos(self.blocks, (min_slot(self.blocks) + k) as u64) {
            Some(pos) => offset_from(self.index_pos() as int, pos as int),
            None => 0,
        }
    }

    /// Where the state index starts, or would start.
    pub open spec fn state_index_pos(self) -> int {
        self.index_pos() + 24 + 8 * self.slot_span()
    }

    /// The state index: the offset of the state entry.
    pub open spec fn state_index(self, slot: u64) -> SlotIndexView {
        SlotIndexView {
            starting_slot: slot,
            offsets: seq![offset_from(self.state_index_pos(), self.state_pos() as int)],
            count: 1,
        }
    }

    /// The entries before the indexes.
    pub open spec fn content(self) -> Seq<EntryView> {
        seq![e2store::entry_of(types::TYPE_VERSION, Seq::empty())] + block_entries(self.blocks)
            + match self.state {
            Some(s) => seq![e2store::entry_of(types::TYPE_COMPRESSED_BEACON_STATE, s.1)],
            None => Seq::empty(),
        }
    }

    /// The indexes.
    pub open spec fn indexes(self) -> Seq<EntryView> {
        seq![e2store::entry_of(types::TYPE_SLOT_INDEX, self.block_index().encoded())]
            + match self.state {
            Some(s) => seq![
                e2store::entry_of(types::TYPE_SLOT_INDEX, self.state_index(s.0).encoded()),
            ],
            None => Seq::empty(),
        }
    }

    /// All entries of the file.
    pub open spec fn entries(self) -> Seq<EntryView> {
        self.content() + self.indexes()
    }
}

/// The model of a builder that has nothing yet.
pub open spec fn empty_builder() -> EraBuilderView {
    EraBuilderView { blocks: Seq::empty(), state: None }
}

/// The entries of blocks take [`blocks_size`] bytes.
pub proof fn lemma_block_entries_len(blocks: Seq<(u64, Seq<u8>)>)
    ensures
        e2store::file_bytes(block_entries(blocks)).len() == blocks_size(blocks),
    decreases blocks.len(),
{
    if blocks.len() > 0 {
        lemma_block_entries_len(blocks.drop_last());
        assert(block_entries(blocks).drop_last() =~= block_entries(blocks.drop_last()));
        e2store::lemma_header_len(block_entries(blocks).last().header);
    }
}

/// The block index starts where the content ends.
pub proof fn lemma_content_len(v: EraBuilderView)
    ensures
        e2store::file_bytes(v.content()).len() == v.index_pos(),
{
    let version = seq![e2store::entry_of(types::TYPE_VERSION, Seq::<u8>::empty())];
    let blocks = block_entries(v.blocks);
    lemma_single(version[0]);
    lemma_block_entries_len(v.blocks);
    e2store::lemma_file_concat(version, blocks);
    match v.state {
        Some(s) => {
            let e = e2store::entry_of(types::TYPE_COMPRESSED_BEACON_STATE, s.1);
            lemma_single(e);
            e2store::lemma_file_concat(version + blocks, seq![e]);
        },
        None => {
            assert(v.content() =~= version + blocks);
        },
    }
}

/// A file of one entry holds the bytes of that entry.
pub proof fn lemma_single(e: EntryView)
    ensures
        e2store::file_bytes(seq![e]) == e.encoded(),
        e.encoded().len() == 8 + e.data.len(),
{
    reveal_with_fuel(e2store::file_bytes, 2);
    e2store::lemma_header_len(e.header);
    assert(seq![e].drop_last() =~= Seq::empty());
    assert(e2store::file_bytes(seq![e]) =~= e.encoded());
}

/// No slot is below [`min_slot`] or above [`max_slot`].
pub proof fn lemma_slot_range(blocks: Seq<(u64, Seq<u8>)>)
    requires
        blocks.len() > 0,
    ensures
        min_slot(blocks) <= max_slot(blocks),
        forall|i: int|
            0 <= i < blocks.len() ==> min_slot(blocks) <= (#[trigger] blocks[i]).0 <= max_slot(
                blocks,
            ),
    decreases blocks.len(),
{
    if blocks.len() > 1 {
        let front = blocks.drop_last();
        lemma_slot_range(front);
        assert forall|i: int| 0 <= i < blocks.len() implies min_slot(blocks) <= (
        #[trigger] blocks[i]).0 <= max_slot(blocks) by {
            if i < front.len() {
                assert(blocks[i] == front[i]);
            }
        }
    }
}

/// The offset from `base` to `pos`, as an index stores it.
pub(crate) fn offset_between(base: usize, pos: usize) -> (r: i64)
    ensures
        r == offset_from(base as int, pos as int),
{
    let d: u64 = (pos as u64).wrapping_sub(base as u64);
    let r: i64 = d as i64;
    assert(r == if d < 0x8000_0000_0000_0000 {
        d as int
    } else {
        d - 0x1_0000_0000_0000_0000
    }) by (bit_vector)
        requires
            r == d as i64,
    ;
    r
}

impl EraBuilder {
    pub fn new() -> (b: Self)
        ensures
            b@ == empty_builder(),
            b@.wf(),
    {
        let b = EraBuilder { blocks: Vec::new(), state: None };
        assert(b@.blocks =~= Seq::empty());
        b
    }

    /// How many blocks have been added.
    pub fn block_count(&self) -> (n: usize)
        ensures
            n == self@.blocks.len(),
    {
        self.blocks.len()
    }

    /// Whether a block has been added for this slot.
    pub fn has_slot(&self, slot: u64) -> (r: bool)
        ensures
            r == self@.has_slot(slot),
    {
        let mut i: usize = 0;
        while i < self.blocks.len()
            invariant
                i <= self.blocks@.len(),
                forall|j: int| 0 <= j < i ==> (#[trigger] self@.blocks[j]).0 != slot,
            decreases self.blocks@.len() - i,
        {
            if self.blocks[i].0 == slot {
                assert(self@.blocks[i as int].0 == slot);
                return true;
            }
            i = i + 1;
        }
        false
    }

    /// Add a compressed beacon block at the given slot, for which no block may
    /// have been added yet.
    pub fn add_block(&mut self, slot: u64, compressed_block: Vec<u8>)
        requires
            old(self)@.wf(),
            !old(self)@.has_slot(slot),
        ensures
            final(self)@ == old(self)@.with_block(slot, compressed_block@),
            final(self)@.wf(),
    {
        self.blocks.push((slot, compressed_block));
        proof {
            let before = old(self)@.blocks;
            assert(self@.blocks =~= before.push((slot, compressed_block@)));
            assert forall|i: int, j: int| 0 <= i < j < self@.blocks.len() implies (
            #[trigger] self@.blocks[i]).0 != (#[trigger] self@.blocks[j]).0 by {
                assert(self@.blocks[i] == before[i]);
                if j < before.len() {
                    assert(self@.blocks[j] == before[j]);
                }
            }
        }
    }

    /// Set the compressed beacon state and its slot.
    pub fn set_state(&mut self, slot: u64, compressed_state: Vec<u8>)
        ensures
            final(self)@ == (EraBuilderView {
                blocks: old(self)@.blocks,
                state: Some((slot, compressed_state@)),
            }),
            old(self)@.wf() ==> final(self)@.wf(),
    {
        self.state = Some((slot, compressed_state));
        assert(self@.blocks =~= old(self)@.blocks);
    }
}

impl EraBuilder {
    /// Whether every entry of the file has room for its data.
    pub fn can_build(&self) -> (r: bool)
        ensures
            r == self@.fits(),
    {
        let mut i: usize = 0;
        while i < self.blocks.len()
            invariant
                i <= self.blocks@.len(),
                forall|j: int| 0 <= j < i ==> (#[trigger] self@.blocks[j]).1.len() <= u32::MAX,
            decreases self.blocks@.len() - i,
        {
            let len: usize = self.blocks[i].1.len();
            if len > 0xffff_ffff {
                assert(self@.blocks[i as int].1.len() > u32::MAX);
                return false;
            }
            i = i + 1;
        }
        if let Some(state) = &self.state {
            let len: usize = state.1.len();
            if len > 0xffff_ffff {
                return false;
            }
        }
        if self.blocks.len() == 0 {
            return true;
        }
        proof {
            lemma_slot_range(self@.blocks);
        }
        let (low, high) = self.slot_range();
        high - low <= 0x1fff_fffc
    }

    /// Append the entries before the indexes, and return the slot of each block
    /// and where its entry starts.
    fn write_content(&self, output: &mut Vec<u8>) -> (positions: Vec<(u64, usize)>)
        requires
            self@.fits(),
        ensures
            final(output)@ == old(output)@ + e2store::file_bytes(self@.content()),
            positions@.len() == self@.blocks.len(),
            forall|i: int|
                0 <= i < positions@.len() ==> (#[trigger] positions@[i]).0 == self@.blocks[i].0
                    && positions@[i].1 == 8 + blocks_size(self@.blocks.take(i)),
    {
        let ghost before = output@;
        let start: usize = output.len();
        let version = Entry::version();
        append_entry(output, &version);
        let mut positions: Vec<(u64, usize)> = Vec::new();
        let mut i: usize = 0;
        let ghost head = seq![version@];
        proof {
            lemma_single(version@);
            assert(head + block_entries(self@.blocks.take(0)) =~= head);
        }
        while i < self.blocks.len()
            invariant
                i <= self.blocks@.len(),
                self@.fits(),
                start == before.len(),
                head == seq![e2store::entry_of(types::TYPE_VERSION, Seq::<u8>::empty())],
                output@ == before + e2store::file_bytes(
                    head + block_entries(self@.blocks.take(i as int)),
                ),
                positions@.len() == i,
                forall|j: int|
                    0 <= j < i ==> (#[trigger] positions@[j]).0 == self@.blocks[j].0
                        && positions@[j].1 == 8 + blocks_size(self@.blocks.take(j)),
            decreases self.blocks@.len() - i,
        {
            let ghost done = self@.blocks.take(i as int);
            proof {
                lemma_single(head[0]);
                lemma_block_entries_len(done);
                e2store::lemma_file_concat(head, block_entries(done));
                assert(self@.blocks[i as int].1.len() <= u32::MAX);
            }
            positions.push((self.blocks[i].0, output.len() - start));
            let entry = Entry::new(
                types::TYPE_COMPRESSED_SIGNED_BEACON_BLOCK,
                self.blocks[i].1.clone(),
            );
            append_entry(output, &entry);
            proof {
                let next = self@.blocks.take(i + 1);
                let all = head + block_entries(next);
                assert(all.drop_last() =~= head + block_entries(done));
                assert(output@ =~= before + (e2store::file_bytes(all.drop_last())
                    + entry@.encoded()));
                assert(all.last() == entry@);
            }
            i = i + 1;
        }
        assert(self@.blocks.take(i as int) =~= self@.blocks);
        match &self.state {
            Some(state) => {
                let entry = Entry::new(types::TYPE_COMPRESSED_BEACON_STATE, state.1.clone());
                append_entry(output, &entry);
                proof {
                    assert(self@.content().drop_last() =~= head + block_entries(self@.blocks));
                    assert(output@ =~= before + e2store::file_bytes(self@.content()));
                }
            },
            None => {
                assert(self@.content() =~= head + block_entries(self@.blocks));
            },
        }
        positions
    }

    /// The lowest and the highest slot.
    fn slot_range(&self) -> (r: (u64, u64))
        requires
            self@.blocks.len() > 0,
        ensures
            r.0 == min_slot(self@.blocks),
            r.1 == max_slot(self@.blocks),
    {
        let mut low: u64 = self.blocks[0].0;
        let mut high: u64 = low;
        let mut i: usize = 1;
        proof {
            assert(self@.blocks[0].0 == low);
        }
        while i < self.blocks.len()
            invariant
                1 <= i <= self.blocks@.len(),
                low == min_slot(self@.blocks.take(i as int)),
                high == max_slot(self@.blocks.take(i as int)),
            decreases self.blocks@.len() - i,
        {
            let slot: u64 = self.blocks[i].0;
            assert(self@.blocks.take(i + 1).drop_last() =~= self@.blocks.take(i as int));
            assert(self@.blocks[i as int].0 == slot);
            if slot < low {
                low = slot;
            }
            if slot > high {
                high = slot;
            }
            i = i + 1;
        }
        assert(self@.blocks.take(i as int) =~= self@.blocks);
        (low, high)
    }

    /// The block index of a file in which the blocks start at `positions` and
    /// the index at `index_pos`.
    fn make_block_index(&self, positions: &Vec<(u64, usize)>, index_pos: usize) -> (idx: SlotIndex)
        requires
            self@.fits(),
            positions@.len() == self@.blocks.len(),
            forall|i: int|
                0 <= i < positions@.len() ==> (#[trigger] positions@[i]).0 == self@.blocks[i].0
                    && positions@[i].1 == 8 + blocks_size(self@.blocks.take(i)),
            index_pos == self@.index_pos(),
        ensures
            idx@ == self@.block_index(),
    {
        broadcast use vstd::std_specs::hash::group_hash_axioms;

        if self.blocks.len() == 0 {
            let idx = SlotIndex::new(0, Vec::new());
            assert(idx@.offsets =~= self@.block_index().offsets);
            return idx;
        }
        let (low, high) = self.slot_range();
        proof {
            lemma_slot_range(self@.blocks);
        }
        let mut slot_to_pos: HashMap<u64, usize> = HashMap::new();
        let mut i: usize = 0;
        while i < positions.len()
            invariant
                i <= positions@.len(),
                positions@.len() == self@.blocks.len(),
                forall|j: int|
                    0 <= j < positions@.len() ==> (#[trigger] positions@[j]).0
                        == self@.blocks[j].0 && positions@[j].1 == 8 + blocks_size(
                        self@.blocks.take(j),
                    ),
                forall|slot: u64| #[trigger]
                    slot_to_pos@.contains_key(slot) == (block_pos(
                        self@.blocks.take(i as int),
                        slot,
                    ) is Some),
                forall|slot: u64| #[trigger]
                    slot_to_pos@.contains_key(slot) ==> block_pos(
                        self@.blocks.take(i as int),
                        slot,
                    ) == Some(slot_to_pos@[slot] as nat),
            decreases positions@.len() - i,
        {
            assert(self@.blocks.take(i + 1).drop_last() =~= self@.blocks.take(i as int));
            assert(positions@[i as int].0 == self@.blocks[i as int].0);
            slot_to_pos.insert(positions[i].0, positions[i].1);
            i = i + 1;
        }
        assert(self@.blocks.take(i as int) =~= self@.blocks);
        let count: u64 = high - low + 1;
        let mut offsets: Vec<i64> = Vec::new();
        let mut k: u64 = 0;
        while k < count
            invariant
                k <= count,
                count == self@.slot_span(),
                self@.blocks.len() > 0,
                low == min_slot(self@.blocks),
                low + count - 1 <= u64::MAX,
                index_pos == self@.index_pos(),
                offsets@.len() == k,
                forall|j: int| 0 <= j < k ==> #[trigger] offsets@[j] == self@.offset_of(j),
                forall|slot: u64| #[trigger]
                    slot_to_pos@.contains_key(slot) == (block_pos(self@.blocks, slot) is Some),
                forall|slot: u64| #[trigger]
                    slot_to_pos@.contains_key(slot) ==> block_pos(self@.blocks, slot) == Some(
                        slot_to_pos@[slot] as nat,
                    ),
            decreases count - k,
        {
            let slot: u64 = low + k;
            match slot_to_pos.get(&slot) {
                Some(pos) => {
                    assert(slot_to_pos@.contains_key(slot));
                    offsets.push(offset_between(index_pos, *pos));
                },
                None => {
                    assert(!slot_to_pos@.contains_key(slot));
                    offsets.push(0);
                },
            }
            k = k + 1;
        }
        assert(offsets@ =~= self@.block_index().offsets);
        SlotIndex::with_count(low, offsets, count)
    }

    /// Build the ERA file and append it to `output`.
    pub fn build(&self, output: &mut Vec<u8>) -> (r: Result<(), IoError>)
        requires
            self@.fits(),
        ensures
            r is Ok,
            final(output)@ == old(output)@ + e2store::file_bytes(self@.entries()),
    {
        let ghost before = output@;
        let ghost content = self@.content();
        let start: usize = output.len();
        let positions = self.write_content(output);
        proof {
            lemma_content_len(self@);
        }
        let index_pos: usize = output.len() - start;
        let block_index = self.make_block_index(&positions, index_pos);
        proof {
            era::lemma_index_len(block_index@);
            if self@.blocks.len() > 0 {
                lemma_slot_range(self@.blocks);
            }
        }
        let entry = Entry::new(types::TYPE_SLOT_INDEX, block_index.encode());
        append_entry(output, &entry);
        let ghost with_index = content.push(entry@);
        proof {
            assert(with_index.drop_last() =~= content);
            assert(output@ =~= before + (e2store::file_bytes(content) + entry@.encoded()));
            e2store::lemma_header_len(entry@.header);
        }
        match &self.state {
            Some(state) => {
                let state_index_pos: usize = output.len() - start;
                let state_len: usize = state.1.len();
                let state_pos: usize = index_pos - 8 - state_len;
                let mut offsets: Vec<i64> = Vec::new();
                offsets.push(offset_between(state_index_pos, state_pos));
                let state_index = SlotIndex::with_count(state.0, offsets, 1);
                proof {
                    assert(state_index@.offsets =~= self@.state_index(state.0).offsets);
                    era::lemma_index_len(state_index@);
                }
                let entry = Entry::new(types::TYPE_SLOT_INDEX, state_index.encode());
                append_entry(output, &entry);
                proof {
                    assert(self@.entries() =~= with_index.push(entry@));
                    assert(self@.entries().drop_last() =~= with_index);
                    assert(output@ =~= before + (e2store::file_bytes(with_index)
                        + entry@.encoded()));
                }
            },
            None => {
                assert(self@.entries() =~= with_index);
            },
        }
        Ok(())
    }
}

impl Default for EraBuilder {
    fn default() -> (b: Self)
        ensures
            b@ == empty_builder(),
            b@.wf(),
    {
        Self::new()
    }
}

} // verus!
