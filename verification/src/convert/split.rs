//! Split an ERA/ERA1 file into individual block files.
//!
//! Extract compressed block data to `{slot}.snappy` files.
//!
//! For ERA1 files, this extracts only the compressed header.
//! For ERA files, this extracts the compressed signed beacon block.

use vstd::prelude::*;

use crate::convert::reindex;
use crate::error::{Error, ErrorView};
use crate::format::e2store;
use crate::format::e2store::{E2StoreReader, EntryView};
use crate::model;
use crate::read::random::{EraRandomReader, EraRandomReaderView};
use crate::text;

verus! {

/// A file to be written: its name and its contents.
#[derive(Debug, Clone)]
pub struct BlockFile {
    pub name: String,
    pub data: Vec<u8>,
}

/// The model of [`BlockFile`].
#[verifier::ext_equal]
pub struct BlockFileView {
    pub name: Seq<char>,
    pub data: Seq<u8>,
}

impl View for BlockFile {
    type V = BlockFileView;

    open spec fn view(&self) -> BlockFileView {
        BlockFileView { name: self.name@, data: self.data@ }
    }
}

/// The name of the file for the block of a slot.
pub open spec fn block_file_name(slot: u64) -> Seq<char> {
    text::dec(slot as nat) + ".snappy"@
}

/// The files for the blocks among `entries`, where an index gives the blocks
/// these slots.
pub open spec fn block_files(entries: Seq<EntryView>, slots: Seq<u64>) -> Seq<BlockFileView>
    decreases entries.len(),
{
    if entries.len() == 0 {
        Seq::empty()
    } else {
        let front = block_files(entries.drop_last(), slots);
        let e = entries.last();
        if reindex::block_entry_type(e.header.typ) {
            let k = reindex::block_total(entries.drop_last());
            front.push(
                BlockFileView {
                    name: block_file_name(reindex::assigned_slot(slots, k as int)),
                    data: e.data,
                },
            )
        } else {
            front
        }
    }
}

/// The slots that the block index of an opened file gives to the blocks.
pub open spec fn indexed_slots(v: EraRandomReaderView) -> Seq<u64> {
    match v.index {
        Some((_, idx)) => reindex::slots_of(idx),
        None => Seq::empty(),
    }
}

/// What [`split_blocks`] returns.
pub open spec fn result_of(data: Seq<u8>) -> Result<u64, ErrorView> {
    match EraRandomReaderView::open(data) {
        Err(e) => Err(e),
        Ok(v) => match e2store::stream_failure(data) {
            Some(e) => Err(ErrorView::Io(e)),
            None => Ok(reindex::block_total(e2store::stream_entries(data).skip(1)) as u64),
        },
    }
}

/// The files that [`split_blocks`] delivers: those of all blocks, or of the
/// blocks before the place where `data` cannot be read.
pub open spec fn files_of(data: Seq<u8>) -> Seq<BlockFileView> {
    match EraRandomReaderView::open(data) {
        Err(e) => Seq::empty(),
        Ok(v) => block_files(e2store::stream_entries(data).skip(1), indexed_slots(v)),
    }
}

/// The name of the file for the block of a slot.
pub fn block_file_name_of(slot: u64) -> (name: String)
    ensures
        name@ == block_file_name(slot),
{
    let mut name = text::dec_string(slot);
    name.append(".snappy");
    name
}

/// The slots that the block index of an opened file gives to the blocks.
pub fn indexed_block_slots(rr: &EraRandomReader<'_>) -> (slots: Vec<u64>)
    ensures
        slots@ == indexed_slots(rr@),
{
    match rr.block_index() {
        Some(idx) => reindex::used_slots_of(idx),
        None => {
            let none: Vec<u64> = Vec::new();
            assert(none@ =~= Seq::empty());
            none
        },
    }
}

/// Split an ERA/ERA1 file into individual compressed block files.
///
/// Appends a file `{slot}.snappy` for each block to `files`, in the order in
/// which they are to be written, and returns how many there are.
pub fn split_blocks(reader: &[u8], files: &mut Vec<BlockFile>) -> (r: Result<u64, Error>)
    ensures
        model::outcome(r) == result_of(reader@),
        model::views(final(files)@) == model::views(old(files)@) + files_of(reader@),
{
    let ghost before = model::views(files@);
    assert(before + Seq::empty() =~= before);
    let rr = match EraRandomReader::new(reader) {
        Ok(rr) => rr,
        Err(e) => {
            return Err(e);
        },
    };
    let slots = indexed_block_slots(&rr);
    let mut e2s = E2StoreReader::new(reader);
    match e2s.next_entry() {
        Err(e) => {
            return Err(Error::Io(e));
        },
        Ok(None) => {
            return Err(Error::missing_version());
        },
        Ok(Some(first)) => {
            if !first.header.is_version() {
                return Err(Error::missing_version());
            }
        },
    }
    let ghost entries = e2store::stream_entries(reader@).skip(1);
    let ghost mut done: Seq<EntryView> = Seq::empty();
    let mut count: usize = 0;
    proof {
        assert(entries =~= done + e2store::stream_entries(e2s@));
    }
    loop
        invariant
            before == model::views(old(files)@),
            entries == e2store::stream_entries(reader@).skip(1),
            entries == done + e2store::stream_entries(e2s@),
            e2store::stream_failure(reader@) == e2store::stream_failure(e2s@),
            EraRandomReaderView::open(reader@) matches Ok(v) && slots@ == indexed_slots(v),
            count == reindex::block_total(done),
            count <= files@.len(),
            model::views(files@) == before + block_files(done, slots@),
        decreases e2s@.len(),
    {
        let entry = match e2s.next_entry() {
            Err(e) => {
                assert(done + Seq::empty() =~= done);
                return Err(Error::Io(e));
            },
            Ok(None) => {
                assert(done + Seq::empty() =~= done);
                return Ok(count as u64);
            },
            Ok(Some(entry)) => entry,
        };
        let ghost front = done;
        proof {
            done = done.push(entry@);
            assert(done.drop_last() =~= front);
            assert(front + (seq![entry@] + e2store::stream_entries(e2s@)) =~= done
                + e2store::stream_entries(e2s@));
        }
        if reindex::is_block_entry(entry.header.typ) {
            let name = block_file_name_of(reindex::slot_for(&slots, count));
            let file = BlockFile { name, data: entry.data };
            let ghost listed = files@;
            files.push(file);
            proof {
                model::lemma_views_push(listed, file);
                assert(model::views(files@) =~= before + block_files(done, slots@));
                assert(files@.len() == files.len());
            }
            count = count + 1;
        }
    }
}

} // verus!
