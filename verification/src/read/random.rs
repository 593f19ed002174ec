//! Random access by slot number.

use vstd::prelude::*;

use crate::bytes;
use crate::error;
use crate::error::{Error, ErrorView};
use crate::format::e2store;
use crate::format::e2store::{E2StoreReader, Header};
use crate::format::era;
use crate::format::era::{SlotIndex, SlotIndexView};
use crate::format::era1;
use crate::format::era1::U256;
use crate::format::types;
use crate::model;
use crate::read::block::{Block, BlockView, Era1Block, Era1BlockView, EraBlock};
use crate::read::typed;
use crate::read::typed::{EraFormat, TypedEntry, TypedEntryView};
use crate::text;

verus! {

/// Error when a slot lookup fails.
#[derive(Debug, Clone, Copy, PartialEq, Eq, Structural)]
pub enum SlotLookupError {
    /// No block at this slot (skipped slot).
    EmptySlot,
    /// Slot is outside the range covered by the index.
    OutOfRange { slot: u64, start: u64, end: u64 },
    /// The block index entry was not found in the file.
    IndexNotFound,
}

impl SlotLookupError {
    /// The text of the error.
    pub open spec fn text(self) -> Seq<char> {
        match self {
            SlotLookupError::EmptySlot => "no block at this slot (skipped)"@,
            SlotLookupError::OutOfRange { slot, start, end } => "slot "@ + text::dec(slot as nat)
                + " outside index range ["@ + text::dec(start as nat) + ", "@ + text::dec(
                end as nat,
            ) + "]"@,
            SlotLookupError::IndexNotFound => "block index not found in file"@,
        }
    }

    pub fn to_string(&self) -> (s: String)
        ensures
            s@ == self.text(),
    {
        match self {
            SlotLookupError::EmptySlot => "no block at this slot (skipped)".to_owned(),
            SlotLookupError::OutOfRange { slot, start, end } => {
                let mut s = "slot ".to_owned();
                text::push_dec(&mut s, *slot);
                s.append(" outside index range [");
                text::push_dec(&mut s, *start);
                s.append(", ");
                text::push_dec(&mut s, *end);
                s.append("]");
                s
            },
            SlotLookupError::IndexNotFound => "block index not found in file".to_owned(),
        }
    }
}

/// The bytes of `data` from position `pos` on, which are none past the end.
pub open spec fn bytes_from(data: Seq<u8>, pos: int) -> Seq<u8> {
    if pos <= data.len() {
        data.skip(pos)
    } else {
        Seq::empty()
    }
}

/// Where the first header of type `typ` is in the file `data`, looking from
/// position `pos` on.
pub open spec fn find_header(data: Seq<u8>, pos: nat, typ: [u8; 2]) -> Result<
    Option<nat>,
    ErrorView,
>
    decreases data.len() - pos,
{
    match e2store::next_header_of(bytes_from(data, pos as int)) {
        Err(e) => Err(ErrorView::Io(e)),
        Ok(None) => Ok(None),
        Ok(Some(h)) => if h.typ == typ {
            Ok(Some(pos))
        } else if pos + 8 + h.length <= data.len() {
            find_header(data, pos + 8 + h.length as nat, typ)
        } else {
            Ok(None)
        },
    }
}

/// The index that stands at position `pos` of the file `data`, and the position.
pub open spec fn index_found_at(data: Seq<u8>, pos: nat) -> Result<
    Option<(u64, SlotIndexView)>,
    ErrorView,
> {
    match e2store::next_entry_of(bytes_from(data, pos as int)) {
        Err(e) => Err(ErrorView::Io(e)),
        Ok(None) => Ok(None),
        Ok(Some(entry)) => match era::slot_index_of(entry.data) {
            Ok(index) => Ok(Some((pos as u64, index))),
            Err(message) => Err(typed::bad_index(message)),
        },
    }
}

/// The index of the blocks of the file `data` and where it starts: the first
/// block index, or the first generic slot index if there is no block index.
pub open spec fn find_index(data: Seq<u8>) -> Result<Option<(u64, SlotIndexView)>, ErrorView> {
    match find_header(data, 0, types::TYPE_BLOCK_INDEX) {
        Err(e) => Err(e),
        Ok(Some(pos)) => index_found_at(data, pos),
        Ok(None) => match find_header(data, 0, types::TYPE_SLOT_INDEX) {
            Err(e) => Err(e),
            Ok(Some(pos)) => index_found_at(data, pos),
            Ok(None) => Ok(None),
        },
    }
}

/// The format that the first header tells which is not that of a version entry.
pub open spec fn format_of(headers: Seq<Header>) -> Option<EraFormat>
    decreases headers.len(),
{
    if headers.len() == 0 {
        None
    } else if headers.first().typ == types::TYPE_VERSION {
        format_of(headers.skip(1))
    } else {
        Some(typed::format_of_type(headers.first().typ))
    }
}

/// Random-access reader for ERA/ERA1 files.
///
/// Navigates to specific entries using the block index. On construction,
/// performs a header-only scan to locate the block index.
pub struct EraRandomReader<'a> {
    reader: &'a [u8],
    format: Option<EraFormat>,
    block_index: Option<SlotIndex>,
    /// Byte offset of the block index entry's header in the file.
    /// Offsets in the index are relative to this position.
    block_index_offset: u64,
}

/// The model of [`EraRandomReader`].
#[verifier::ext_equal]
pub struct EraRandomReaderView {
    /// The file.
    pub data: Seq<u8>,
    pub format: Option<EraFormat>,
    /// Where the block index starts, and the index.
    pub index: Option<(u64, SlotIndexView)>,
}

impl<'a> View for EraRandomReader<'a> {
    type V = EraRandomReaderView;

    closed spec fn view(&self) -> EraRandomReaderView {
        EraRandomReaderView {
            data: self.reader@,
            format: self.format,
            index: match self.block_index {
                Some(index) => Some((self.block_index_offset, index@)),
                None => None,
            },
        }
    }
}

/// Where the entry of a slot starts, by an index that stands at `pos`.
pub open spec fn lookup(index: Option<(u64, SlotIndexView)>, slot: u64) -> Result<
    u64,
    SlotLookupError,
> {
    match index {
        None => Err(SlotLookupError::IndexNotFound),
        Some((pos, idx)) => {
            let start = idx.starting_slot;
            let end = bytes::wrap64(start + idx.offsets.len());
            if slot < start || slot >= end {
                Err(SlotLookupError::OutOfRange { slot, start, end })
            } else if idx.offsets[slot - start] == 0 {
                Err(SlotLookupError::EmptySlot)
            } else {
                Ok(bytes::wrap64(pos + idx.offsets[slot - start]))
            }
        },
    }
}

/// The error for a typed entry that is no block, found where the index says
/// that the block of a slot is.
pub open spec fn not_a_block(slot: u64, t: TypedEntryView) -> ErrorView {
    error::invalid_era_view(
        "expected block entry at slot "@ + text::dec(slot as nat) + ", got "@ + t.type_label()
            + " ("@ + text::hex_byte(t.entry_type()[0]) + text::hex_byte(t.entry_type()[1]) + ")"@,
    )
}

/// The error for an index that points to the end of the file or beyond.
pub open spec fn index_past_end() -> ErrorView {
    error::invalid_era_view("unexpected EOF at indexed position"@)
}

/// The block that a typed entry stands for, found where the index says that
/// the block of `slot` is. Of an ERA1 block it is the header alone.
pub open spec fn block_of_typed(slot: u64, t: TypedEntryView) -> Result<
    Option<BlockView>,
    ErrorView,
> {
    match t {
        TypedEntryView::BeaconBlock { data } => Ok(Some(BlockView::Era(data))),
        TypedEntryView::Header { data } => Ok(
            Some(
                BlockView::Era1(
                    Era1BlockView {
                        header: data,
                        body: Seq::empty(),
                        receipts: Seq::empty(),
                        total_difficulty: era1::zero_difficulty(),
                    },
                ),
            ),
        ),
        _ => Err(not_a_block(slot, t)),
    }
}

/// The compressed state in `s`, which starts after the version entry.
pub open spec fn find_state(s: Seq<u8>) -> Result<Option<Seq<u8>>, ErrorView>
    decreases s.len(),
{
    match e2store::next_entry_of(s) {
        Err(e) => Err(ErrorView::Io(e)),
        Ok(None) => Ok(None),
        Ok(Some(entry)) => if entry.header.typ == types::TYPE_COMPRESSED_BEACON_STATE {
            Ok(Some(entry.data))
        } else {
            find_state(e2store::after_entry(s))
        },
    }
}

/// The ERA1 block `b` with the parts that follow at the start of `s`.
pub open spec fn full_block(b: Era1BlockView, s: Seq<u8>) -> Result<Era1BlockView, ErrorView>
    decreases s.len(),
{
    match e2store::next_entry_of(s) {
        Err(e) => Err(ErrorView::Io(e)),
        Ok(None) => Ok(b),
        Ok(Some(entry)) => {
            let rest = e2store::after_entry(s);
            if entry.header.typ == types::TYPE_COMPRESSED_BODY {
                full_block(Era1BlockView { body: entry.data, ..b }, rest)
            } else if entry.header.typ == types::TYPE_COMPRESSED_RECEIPTS {
                full_block(Era1BlockView { receipts: entry.data, ..b }, rest)
            } else if entry.header.typ == types::TYPE_TOTAL_DIFFICULTY {
                full_block(
                    Era1BlockView {
                        total_difficulty: if entry.data.len() == 32 {
                            U256(typed::word_of(entry.data))
                        } else {
                            b.total_difficulty
                        },
                        ..b
                    },
                    rest,
                )
            } else {
                Ok(b)
            }
        },
    }
}

/// An ERA1 block of which only the header has been read.
pub open spec fn header_only(header: Seq<u8>) -> Era1BlockView {
    Era1BlockView {
        header,
        body: Seq::empty(),
        receipts: Seq::empty(),
        total_difficulty: era1::zero_difficulty(),
    }
}

/// The error for an entry that is no header, found where the index says that
/// the header of a slot is.
pub open spec fn not_a_header(slot: u64, typ: [u8; 2]) -> ErrorView {
    error::invalid_era_view(
        "expected header entry at slot "@ + text::dec(slot as nat) + ", got "@ + text::hex_byte(
            typ[0],
        ) + text::hex_byte(typ[1]),
    )
}

impl EraRandomReaderView {
    /// What [`EraRandomReader::new`] makes of a file.
    pub open spec fn open(data: Seq<u8>) -> Result<EraRandomReaderView, ErrorView> {
        match e2store::next_entry_of(data) {
            Err(e) => Err(ErrorView::Io(e)),
            Ok(None) => Err(error::missing_version_view()),
            Ok(Some(first)) => if first.header.typ != types::TYPE_VERSION {
                Err(error::missing_version_view())
            } else {
                match find_index(data) {
                    Err(e) => Err(e),
                    Ok(index) => Ok(
                        EraRandomReaderView {
                            data,
                            format: format_of(e2store::stream_headers(data)),
                            index,
                        },
                    ),
                }
            },
        }
    }

    /// What [`EraRandomReader::read_block_at_slot`] returns.
    pub open spec fn block_at(self, slot: u64) -> Result<Option<BlockView>, ErrorView> {
        match lookup(self.index, slot) {
            Err(SlotLookupError::EmptySlot) => Ok(None),
            Err(e) => Err(error::invalid_era_view(e.text())),
            Ok(pos) => match e2store::next_entry_of(bytes_from(self.data, pos as int)) {
                Err(e) => Err(ErrorView::Io(e)),
                Ok(None) => Err(index_past_end()),
                Ok(Some(entry)) => match typed::typed_of(entry) {
                    Err(e) => Err(e),
                    Ok(t) => block_of_typed(slot, t),
                },
            },
        }
    }

    /// What [`EraRandomReader::read_full_era1_block_at_slot`] returns.
    pub open spec fn full_block_at(self, slot: u64) -> Result<Option<Era1BlockView>, ErrorView> {
        match lookup(self.index, slot) {
            Err(SlotLookupError::EmptySlot) => Ok(None),
            Err(e) => Err(error::invalid_era_view(e.text())),
            Ok(pos) => {
                let s = bytes_from(self.data, pos as int);
                match e2store::next_entry_of(s) {
                    Err(e) => Err(ErrorView::Io(e)),
                    Ok(None) => Err(index_past_end()),
                    Ok(Some(first)) => if first.header.typ != types::TYPE_COMPRESSED_HEADER {
                        Err(not_a_header(slot, first.header.typ))
                    } else {
                        match era::payload_of(era::snappy_decoded(first.data)) {
                            Err(e) => Err(e),
                            Ok(header) => match full_block(
                                header_only(header),
                                e2store::after_entry(s),
                            ) {
                                Err(e) => Err(e),
                                Ok(b) => Ok(Some(b)),
                            },
                        }
                    },
                }
            },
        }
    }

    /// What [`EraRandomReader::read_state`] returns.
    pub open spec fn state(self) -> Result<Option<Seq<u8>>, ErrorView> {
        match e2store::next_entry_of(self.data) {
            Err(e) => Err(ErrorView::Io(e)),
            Ok(None) => Err(error::missing_version_view()),
            Ok(Some(first)) => if first.header.typ != types::TYPE_VERSION {
                Err(error::missing_version_view())
            } else {
                match find_state(e2store::after_entry(self.data)) {
                    Err(e) => Err(e),
                    Ok(None) => Ok(None),
                    Ok(Some(compressed)) => match era::payload_of(
                        era::snappy_decoded(compressed),
                    ) {
                        Err(e) => Err(e),
                        Ok(state) => Ok(Some(state)),
                    },
                }
            },
        }
    }
}

/// See [`bytes_from`].
pub fn slice_from(data: &[u8], pos: u64) -> (rest: &[u8])
    ensures
        rest@ == bytes_from(data@, pos as int),
{
    let len: usize = data.len();
    if pos <= len as u64 {
        let rest = vstd::slice::slice_subrange(data, pos as usize, len);
        assert(rest@ =~= data@.skip(pos as int));
        rest
    } else {
        let rest = vstd::slice::slice_subrange(data, len, len);
        assert(rest@ =~= Seq::empty());
        rest
    }
}

/// Turn a typed entry, found where the index says that the block of `slot` is,
/// into a block.
pub fn block_from_typed(slot: u64, t: TypedEntry) -> (r: Result<Option<Block>, Error>)
    ensures
        model::found_view(r) == block_of_typed(slot, t@),
{
    match t {
        TypedEntry::BeaconBlock { data } => Ok(Some(Block::Era(EraBlock { block: data }))),
        TypedEntry::Header { data } => {
            let b = Era1Block {
                header: data,
                body: Vec::new(),
                receipts: Vec::new(),
                total_difficulty: U256::zero(),
            };
            assert(b@ =~= header_only(data@));
            Ok(Some(Block::Era1(b)))
        },
        other => {
            let typ: [u8; 2] = other.entry_type();
            let mut s = "expected block entry at slot ".to_owned();
            text::push_dec(&mut s, slot);
            s.append(", got ");
            s.append(other.type_label());
            s.append(" (");
            text::push_hex_byte(&mut s, typ[0]);
            text::push_hex_byte(&mut s, typ[1]);
            s.append(")");
            Err(Error::invalid_era(s))
        },
    }
}

/// Complete an ERA1 block whose header is `header` with the body, receipts and
/// total difficulty entries at the start of `rest`.
pub fn assemble_era1(header: Vec<u8>, rest: &[u8]) -> (r: Result<Era1Block, Error>)
    ensures
        model::result_view(r) == full_block(header_only(header@), rest@),
{
    let mut e2s = E2StoreReader::new(rest);
    let mut b = Era1Block {
        header,
        body: Vec::new(),
        receipts: Vec::new(),
        total_difficulty: U256::zero(),
    };
    assert(b@ =~= header_only(header@));
    loop
        invariant
            full_block(header_only(header@), rest@) == full_block(b@, e2s@),
        decreases e2s@.len(),
    {
        let entry = match e2s.next_entry() {
            Err(e) => {
                return Err(Error::Io(e));
            },
            Ok(None) => {
                return Ok(b);
            },
            Ok(Some(entry)) => entry,
        };
        if types::same_type(entry.header.typ, types::TYPE_COMPRESSED_BODY) {
            b.body = entry.data;
        } else if types::same_type(entry.header.typ, types::TYPE_COMPRESSED_RECEIPTS) {
            b.receipts = entry.data;
        } else if types::same_type(entry.header.typ, types::TYPE_TOTAL_DIFFICULTY) {
            if entry.data.len() == 32 {
                let word: [u8; 32] = era1::array_at(entry.data.as_slice(), 0);
                proof {
                    assert(word@ =~= entry.data@);
                    typed::lemma_word(word);
                }
                b.total_difficulty = U256(word);
            }
        } else {
            return Ok(b);
        }
    }
}

/// Looking past the headers of a file, the rest that is to be read starts at
/// the position that the headers add up to.
proof fn lemma_header_step(data: Seq<u8>, pos: nat)
    requires
        pos <= data.len(),
        e2store::next_header_of(bytes_from(data, pos as int)) matches Ok(Some(_)),
    ensures
        e2store::after_header(bytes_from(data, pos as int)) == bytes_from(
            data,
            pos + 8 + e2store::next_header_of(
                bytes_from(data, pos as int),
            )->Ok_0->Some_0.length as nat as int,
        ),
{
    let rest = bytes_from(data, pos as int);
    let h = e2store::next_header_of(rest)->Ok_0->Some_0;
    assert(e2store::after_header(rest) =~= bytes_from(data, pos + 8 + h.length));
}

impl<'a> EraRandomReader<'a> {
    /// A reader that goes by the index at byte `pos`, if there is one.
    fn with_index(reader: &'a [u8], format: Option<EraFormat>, pos: Option<u64>) -> (r: Result<
        Self,
        Error,
    >)
        ensures
            model::result_view(r) == (match pos {
                None => Ok(EraRandomReaderView { data: reader@, format, index: None }),
                Some(pos) => match index_found_at(reader@, pos as nat) {
                    Err(e) => Err(e),
                    Ok(index) => Ok(EraRandomReaderView { data: reader@, format, index }),
                },
            }),
    {
        let mut block_index: Option<SlotIndex> = None;
        let mut block_index_offset: u64 = 0;
        if let Some(pos) = pos {
            let mut full_reader = E2StoreReader::new(slice_from(reader, pos));
            match full_reader.next_entry() {
                Err(e) => {
                    return Err(Error::Io(e));
                },
                Ok(None) => {},
                Ok(Some(entry)) => match typed::decode_index(entry.data.as_slice()) {
                    Err(e) => {
                        return Err(e);
                    },
                    Ok(index) => {
                        block_index = Some(index);
                        block_index_offset = pos;
                    },
                },
            }
        }
        Ok(EraRandomReader { reader, format, block_index, block_index_offset })
    }

    /// Open and index an ERA/ERA1 file.
    ///
    /// Performs a header-only scan to find the block index and detect the
    /// format.
    pub fn new(reader: &'a [u8]) -> (r: Result<Self, Error>)
        ensures
            model::result_view(r) == EraRandomReaderView::open(reader@),
    {
        // Read and validate the version entry
        let mut e2s = E2StoreReader::new(reader);
        match e2s.next_entry() {
            Err(e) => {
                return Err(Error::Io(e));
            },
            Ok(None) => {
                return Err(Error::missing_version());
            },
            Ok(Some(first)) => {
                if !first.header.is_version() {
                    return Err(Error::missing_version());
                }
            },
        }
        // Header-only scan for the block index
        let mut scanner = E2StoreReader::new(reader);
        let mut format: Option<EraFormat> = None;
        // The first generic slot index, which counts if there is no block index
        let mut slot_index_pos: Option<u64> = None;
        let mut pos: u64 = 0;
        let total: u64 = reader.len() as u64;
        assert(bytes_from(reader@, 0) =~= reader@);
        loop
            invariant
                reader@.len() == total,
                EraRandomReaderView::open(reader@) == (match find_index(reader@) {
                    Err(e) => Err::<EraRandomReaderView, ErrorView>(e),
                    Ok(index) => Ok(
                        EraRandomReaderView {
                            data: reader@,
                            format: format_of(e2store::stream_headers(reader@)),
                            index,
                        },
                    ),
                }),
                pos <= total,
                scanner@ == bytes_from(reader@, pos as int),
                find_header(reader@, 0, types::TYPE_BLOCK_INDEX) == find_header(
                    reader@,
                    pos as nat,
                    types::TYPE_BLOCK_INDEX,
                ),
                find_header(reader@, 0, types::TYPE_SLOT_INDEX) == (match slot_index_pos {
                    Some(p) => Ok::<Option<nat>, ErrorView>(Some(p as nat)),
                    None => find_header(reader@, pos as nat, types::TYPE_SLOT_INDEX),
                }),
                format_of(e2store::stream_headers(reader@)) == match format {
                    Some(f) => Some(f),
                    None => format_of(e2store::stream_headers(scanner@)),
                },
            decreases scanner@.len(),
        {
            let ghost rest = scanner@;
            let header = match scanner.next_header_only() {
                Err(e) => {
                    return Err(Error::Io(e));
                },
                Ok(None) => {
                    return Self::with_index(reader, format, slot_index_pos);
                },
                Ok(Some(header)) => header,
            };
            proof {
                types::lemma_type_codes();
                let headers = e2store::stream_headers(rest);
                assert(headers == seq![header] + e2store::stream_headers(scanner@));
                assert(headers.skip(1) =~= e2store::stream_headers(scanner@));
                lemma_header_step(reader@, pos as nat);
            }
            if format.is_none() && !header.is_version() {
                format = Some(typed::detect_format(&header.typ));
            }
            if types::same_type(header.typ, types::TYPE_BLOCK_INDEX) {
                return Self::with_index(reader, format, Some(pos));
            }
            if slot_index_pos.is_none() && types::same_type(header.typ, types::TYPE_SLOT_INDEX) {
                slot_index_pos = Some(pos);
            }
            let step: u64 = 8 + header.length as u64;
            pos = if step <= total - pos {
                pos + step
            } else {
                total
            };
            assert(scanner@ =~= bytes_from(reader@, pos as int));
        }
    }

    /// Return the detected format.
    pub fn format(&self) -> (f: Option<EraFormat>)
        ensures
            f == self@.format,
    {
        self.format
    }

    /// Return the block index, if found.
    pub fn block_index(&self) -> (idx: Option<&SlotIndex>)
        ensures
            match idx {
                Some(idx) => self@.index matches Some((_, i)) && i == idx@,
                None => self@.index is None,
            },
    {
        self.block_index.as_ref()
    }

    /// Return the number of slots covered by the block index.
    pub fn slot_count(&self) -> (n: Option<usize>)
        ensures
            match n {
                Some(n) => self@.index matches Some((_, i)) && i.offsets.len() == n,
                None => self@.index is None,
            },
    {
        match &self.block_index {
            Some(idx) => Some(idx.offsets.len()),
            None => None,
        }
    }

    /// Return the starting slot number.
    pub fn starting_slot(&self) -> (slot: Option<u64>)
        ensures
            slot == (match self@.index {
                Some((_, i)) => Some(i.starting_slot),
                None => None,
            }),
    {
        match &self.block_index {
            Some(idx) => Some(idx.starting_slot),
            None => None,
        }
    }

    /// Look up the absolute byte offset for a slot in the block index.
    ///
    /// Returns `Err(SlotLookupError::EmptySlot)` if the slot has no block
    /// (skipped slot, offset is 0).
    /// Returns `Err(SlotLookupError::OutOfRange)` if the slot is outside
    /// the index range.
    /// Returns `Err(SlotLookupError::IndexNotFound)` if no block index
    /// was found in the file.
    pub fn slot_to_offset(&self, slot: u64) -> (r: Result<u64, SlotLookupError>)
        ensures
            r == lookup(self@.index, slot),
    {
        let idx = match &self.block_index {
            Some(idx) => idx,
            None => {
                return Err(SlotLookupError::IndexNotFound);
            },
        };
        let start: u64 = idx.starting_slot;
        let end: u64 = bytes::wrapping_sum(start, idx.offsets.len() as u64);
        if slot < start || slot >= end {
            return Err(SlotLookupError::OutOfRange { slot, start, end });
        }
        let i: usize = (slot - start) as usize;
        let relative_offset: i64 = idx.offsets[i];
        if relative_offset == 0 {
            return Err(SlotLookupError::EmptySlot);
        }
        // Offsets are relative to the block index entry's position in the file,
        // and can be negative (entries before the index)
        Ok(bytes::wrapping_offset(self.block_index_offset, relative_offset))
    }

    /// Read the block entry of a slot.
    ///
    /// For ERA files, returns the full decompressed beacon block.
    /// For ERA1 files, returns only the header (not body/receipts/td), since
    /// those are in subsequent entries. Use
    /// [`EraBlockReader`](crate::read::EraBlockReader) for full block assembly.
    ///
    /// Returns `Ok(None)` if the slot is empty (skipped slot).
    pub fn read_block_at_slot(&mut self, slot: u64) -> (r: Result<Option<Block>, Error>)
        ensures
            model::found_view(r) == old(self)@.block_at(slot),
            final(self)@ == old(self)@,
    {
        let pos: u64 = match self.slot_to_offset(slot) {
            Ok(pos) => pos,
            Err(SlotLookupError::EmptySlot) => {
                return Ok(None);
            },
            Err(e) => {
                return Err(Error::invalid_era(e.to_string()));
            },
        };
        let mut e2s = E2StoreReader::new(slice_from(self.reader, pos));
        let entry = match e2s.next_entry() {
            Err(e) => {
                return Err(Error::Io(e));
            },
            Ok(None) => {
                return Err(Error::invalid_era("unexpected EOF at indexed position".to_owned()));
            },
            Ok(Some(entry)) => entry,
        };
        match typed::decode_entry(entry) {
            Err(e) => Err(e),
            Ok(t) => block_from_typed(slot, t),
        }
    }

    /// Read the beacon state entry (ERA files only).
    ///
    /// This performs a full sequential scan, so cache the result if
    /// you need it repeatedly.
    pub fn read_state(&mut self) -> (r: Result<Option<Vec<u8>>, Error>)
        ensures
            model::found_view(r) == old(self)@.state(),
            final(self)@ == old(self)@,
    {
        let mut e2s = E2StoreReader::new(self.reader);
        match e2s.next_entry() {
            Err(e) => {
                return Err(Error::Io(e));
            },
            Ok(None) => {
                return Err(Error::missing_version());
            },
            Ok(Some(first)) => {
                if !first.header.is_version() {
                    return Err(Error::missing_version());
                }
            },
        }
        let ghost start = e2s@;
        loop
            invariant
                *self == *old(self),
                start == e2store::after_entry(self@.data),
                e2store::next_entry_of(self@.data) matches Ok(Some(e)) && e.header.typ
                    == types::TYPE_VERSION,
                find_state(start) == find_state(e2s@),
            decreases e2s@.len(),
        {
            match e2s.next_entry() {
                Err(e) => {
                    return Err(Error::Io(e));
                },
                Ok(None) => {
                    return Ok(None);
                },
                Ok(Some(entry)) => {
                    if types::same_type(entry.header.typ, types::TYPE_COMPRESSED_BEACON_STATE) {
                        return match era::decompress_entry(entry.data.as_slice()) {
                            Ok(state) => Ok(Some(state)),
                            Err(e) => Err(e),
                        };
                    }
                },
            }
        }
    }

    /// Unwrap the file.
    pub fn into_inner(self) -> (reader: &'a [u8])
        ensures
            reader@ == self@.data,
    {
        self.reader
    }

    /// Read a full ERA1 block at the given slot, including body, receipts,
    /// and total difficulty.
    ///
    /// Unlike [`read_block_at_slot`](Self::read_block_at_slot) which only
    /// returns the header, this reads subsequent body/receipts/td entries
    /// until a non-block entry is hit.
    ///
    /// Returns `Ok(None)` if the slot is empty (skipped slot).
    pub fn read_full_era1_block_at_slot(&mut self, slot: u64) -> (r: Result<
        Option<Era1Block>,
        Error,
    >)
        ensures
            model::found_view(r) == old(self)@.full_block_at(slot),
            final(self)@ == old(self)@,
    {
        let pos: u64 = match self.slot_to_offset(slot) {
            Ok(pos) => pos,
            Err(SlotLookupError::EmptySlot) => {
                return Ok(None);
            },
            Err(e) => {
                return Err(Error::invalid_era(e.to_string()));
            },
        };
        let mut e2s = E2StoreReader::new(slice_from(self.reader, pos));
        let first = match e2s.next_entry() {
            Err(e) => {
                return Err(Error::Io(e));
            },
            Ok(None) => {
                return Err(Error::invalid_era("unexpected EOF at indexed position".to_owned()));
            },
            Ok(Some(entry)) => entry,
        };
        let typ: [u8; 2] = first.header.typ;
        if !types::same_type(typ, types::TYPE_COMPRESSED_HEADER) {
            let mut s = "expected header entry at slot ".to_owned();
            text::push_dec(&mut s, slot);
            s.append(", got ");
            text::push_hex_byte(&mut s, typ[0]);
            text::push_hex_byte(&mut s, typ[1]);
            return Err(Error::invalid_era(s));
        }
        let header = match era::decompress_entry(first.data.as_slice()) {
            Err(e) => {
                return Err(e);
            },
            Ok(header) => header,
        };
        match assemble_era1(header, e2s.into_inner()) {
            Err(e) => Err(e),
            Ok(b) => Ok(Some(b)),
        }
    }
}

} // verus!
