//! Typed entries and the reader that yields them.

use vstd::prelude::*;

use crate::error;
use crate::error::{E2StoreError, E2StoreErrorView, Error, ErrorView};
use crate::format::e2store;
use crate::format::e2store::{E2StoreReader, Entry, EntryView, Header};
use crate::format::era;
use crate::format::era::{SlotIndex, SlotIndexView};
use crate::format::era1;
use crate::format::era1::{B256, U256};
use crate::format::types;
use crate::model;
use crate::text;

verus! {

/// Detected file format.
#[derive(Debug, Clone, Copy, PartialEq, Eq, Structural)]
pub enum EraFormat {
    /// Post-merge beacon chain history (ERA).
    Era,
    /// Pre-merge execution layer history (ERA1).
    Era1,
}

impl EraFormat {
    /// The name of the format.
    pub open spec fn text(self) -> Seq<char> {
        match self {
            EraFormat::Era => "ERA"@,
            EraFormat::Era1 => "ERA1"@,
        }
    }

    pub fn to_string(&self) -> (s: String)
        ensures
            s@ == self.text(),
    {
        match self {
            EraFormat::Era => "ERA".to_owned(),
            EraFormat::Era1 => "ERA1".to_owned(),
        }
    }
}

/// The format of a file whose first entry after the version is of type `typ`.
pub open spec fn format_of_type(typ: [u8; 2]) -> EraFormat {
    if typ == types::TYPE_COMPRESSED_SIGNED_BEACON_BLOCK || typ
        == types::TYPE_COMPRESSED_BEACON_STATE || typ == types::TYPE_BLOCK_INDEX || typ
        == types::TYPE_STATE_INDEX {
        EraFormat::Era
    } else {
        EraFormat::Era1
    }
}

/// Detect ERA or ERA1 format from an entry type.
pub fn detect_format(typ: &[u8; 2]) -> (f: EraFormat)
    ensures
        f == format_of_type(*typ),
{
    if types::same_type(*typ, types::TYPE_COMPRESSED_SIGNED_BEACON_BLOCK) || types::same_type(
        *typ,
        types::TYPE_COMPRESSED_BEACON_STATE,
    ) || types::same_type(*typ, types::TYPE_BLOCK_INDEX) || types::same_type(
        *typ,
        types::TYPE_STATE_INDEX,
    ) {
        EraFormat::Era
    } else {
        EraFormat::Era1
    }
}

/// A typed, decoded e2store entry.
///
/// Raw bytes are decoded into appropriate types where applicable.
/// Unknown entry types are preserved as raw bytes for forward compatibility.
#[derive(Debug, Clone)]
pub enum TypedEntry {
    // ERA entries
    /// Signed beacon block, decompressed.
    BeaconBlock { data: Vec<u8> },
    /// Beacon state, decompressed.
    BeaconState { data: Vec<u8> },
    /// Block slot index.
    BlockIndex { index: SlotIndex },
    /// State slot index.
    StateIndex { index: SlotIndex },
    // ERA1 entries
    /// RLP-encoded block header, decompressed.
    Header { data: Vec<u8> },
    /// RLP-encoded block body.
    BlockBody { data: Vec<u8> },
    /// RLP-encoded receipts.
    Receipts { data: Vec<u8> },
    /// SSZ-encoded total difficulty.
    TotalDifficulty { value: U256 },
    /// SSZ hash tree root of `List[HeaderRecord, 8192]`.
    BlockAccumulator { root: B256 },
    // Common
    /// Unknown entry type, preserved for forward compatibility.
    Unknown { typ: [u8; 2], data: Vec<u8> },
}

/// The model of [`TypedEntry`].
#[verifier::ext_equal]
pub enum TypedEntryView {
    BeaconBlock { data: Seq<u8> },
    BeaconState { data: Seq<u8> },
    BlockIndex { index: SlotIndexView },
    StateIndex { index: SlotIndexView },
    Header { data: Seq<u8> },
    BlockBody { data: Seq<u8> },
    Receipts { data: Seq<u8> },
    TotalDifficulty { value: U256 },
    BlockAccumulator { root: B256 },
    Unknown { typ: [u8; 2], data: Seq<u8> },
}

impl View for TypedEntry {
    type V = TypedEntryView;

    open spec fn view(&self) -> TypedEntryView {
        match *self {
            TypedEntry::BeaconBlock { data } => TypedEntryView::BeaconBlock { data: data@ },
            TypedEntry::BeaconState { data } => TypedEntryView::BeaconState { data: data@ },
            TypedEntry::BlockIndex { index } => TypedEntryView::BlockIndex { index: index@ },
            TypedEntry::StateIndex { index } => TypedEntryView::StateIndex { index: index@ },
            TypedEntry::Header { data } => TypedEntryView::Header { data: data@ },
            TypedEntry::BlockBody { data } => TypedEntryView::BlockBody { data: data@ },
            TypedEntry::Receipts { data } => TypedEntryView::Receipts { data: data@ },
            TypedEntry::TotalDifficulty { value } => TypedEntryView::TotalDifficulty { value },
            TypedEntry::BlockAccumulator { root } => TypedEntryView::BlockAccumulator { root },
            TypedEntry::Unknown { typ, data } => TypedEntryView::Unknown { typ, data: data@ },
        }
    }
}

impl TypedEntryView {
    /// The type of the raw entry.
    pub open spec fn entry_type(self) -> [u8; 2] {
        match self {
            TypedEntryView::BeaconBlock { .. } => types::TYPE_COMPRESSED_SIGNED_BEACON_BLOCK,
            TypedEntryView::BeaconState { .. } => types::TYPE_COMPRESSED_BEACON_STATE,
            TypedEntryView::BlockIndex { .. } => types::TYPE_BLOCK_INDEX,
            TypedEntryView::StateIndex { .. } => types::TYPE_STATE_INDEX,
            TypedEntryView::Header { .. } => types::TYPE_COMPRESSED_HEADER,
            TypedEntryView::BlockBody { .. } => types::TYPE_COMPRESSED_BODY,
            TypedEntryView::Receipts { .. } => types::TYPE_COMPRESSED_RECEIPTS,
            TypedEntryView::TotalDifficulty { .. } => types::TYPE_TOTAL_DIFFICULTY,
            TypedEntryView::BlockAccumulator { .. } => types::TYPE_ACCUMULATOR,
            TypedEntryView::Unknown { typ, .. } => typ,
        }
    }

    /// The name of the entry type.
    pub open spec fn type_label(self) -> Seq<char> {
        match self {
            TypedEntryView::BeaconBlock { .. } => "BeaconBlock"@,
            TypedEntryView::BeaconState { .. } => "BeaconState"@,
            TypedEntryView::BlockIndex { .. } => "BlockIndex"@,
            TypedEntryView::StateIndex { .. } => "StateIndex"@,
            TypedEntryView::Header { .. } => "Header"@,
            TypedEntryView::BlockBody { .. } => "BlockBody"@,
            TypedEntryView::Receipts { .. } => "Receipts"@,
            TypedEntryView::TotalDifficulty { .. } => "TotalDifficulty"@,
            TypedEntryView::BlockAccumulator { .. } => "BlockAccumulator"@,
            TypedEntryView::Unknown { .. } => "Unknown"@,
        }
    }

    /// The size of the data in bytes.
    pub open spec fn data_len(self) -> nat {
        match self {
            TypedEntryView::BeaconBlock { data } => data.len(),
            TypedEntryView::BeaconState { data } => data.len(),
            TypedEntryView::BlockIndex { index } => 16 + 8 * index.offsets.len(),
            TypedEntryView::StateIndex { index } => 16 + 8 * index.offsets.len(),
            TypedEntryView::Header { data } => data.len(),
            TypedEntryView::BlockBody { data } => data.len(),
            TypedEntryView::Receipts { data } => data.len(),
            TypedEntryView::TotalDifficulty { .. } => 32,
            TypedEntryView::BlockAccumulator { .. } => 32,
            TypedEntryView::Unknown { data, .. } => data.len(),
        }
    }
}

impl TypedEntry {
    /// Return the raw e2store entry type bytes.
    pub fn entry_type(&self) -> (typ: [u8; 2])
        ensures
            typ == self@.entry_type(),
    {
        match self {
            TypedEntry::BeaconBlock { .. } => types::TYPE_COMPRESSED_SIGNED_BEACON_BLOCK,
            TypedEntry::BeaconState { .. } => types::TYPE_COMPRESSED_BEACON_STATE,
            TypedEntry::BlockIndex { .. } => types::TYPE_BLOCK_INDEX,
            TypedEntry::StateIndex { .. } => types::TYPE_STATE_INDEX,
            TypedEntry::Header { .. } => types::TYPE_COMPRESSED_HEADER,
            TypedEntry::BlockBody { .. } => types::TYPE_COMPRESSED_BODY,
            TypedEntry::Receipts { .. } => types::TYPE_COMPRESSED_RECEIPTS,
            TypedEntry::TotalDifficulty { .. } => types::TYPE_TOTAL_DIFFICULTY,
            TypedEntry::BlockAccumulator { .. } => types::TYPE_ACCUMULATOR,
            TypedEntry::Unknown { typ, .. } => *typ,
        }
    }

    /// Return the name of this entry type for display.
    pub fn type_label(&self) -> (name: &'static str)
        ensures
            name@ == self@.type_label(),
    {
        match self {
            TypedEntry::BeaconBlock { .. } => "BeaconBlock",
            TypedEntry::BeaconState { .. } => "BeaconState",
            TypedEntry::BlockIndex { .. } => "BlockIndex",
            TypedEntry::StateIndex { .. } => "StateIndex",
            TypedEntry::Header { .. } => "Header",
            TypedEntry::BlockBody { .. } => "BlockBody",
            TypedEntry::Receipts { .. } => "Receipts",
            TypedEntry::TotalDifficulty { .. } => "TotalDifficulty",
            TypedEntry::BlockAccumulator { .. } => "BlockAccumulator",
            TypedEntry::Unknown { .. } => "Unknown",
        }
    }

    /// Data size in bytes.
    pub fn data_len(&self) -> (n: usize)
        ensures
            n == self@.data_len(),
    {
        match self {
            TypedEntry::BeaconBlock { data } => data.len(),
            TypedEntry::BeaconState { data } => data.len(),
            TypedEntry::BlockIndex { index } => {
                proof {
                    era::lemma_index_len(index@);
                }
                index.encode().len()
            },
            TypedEntry::StateIndex { index } => {
                proof {
                    era::lemma_index_len(index@);
                }
                index.encode().len()
            },
            TypedEntry::Header { data } => data.len(),
            TypedEntry::BlockBody { data } => data.len(),
            TypedEntry::Receipts { data } => data.len(),
            TypedEntry::TotalDifficulty { .. } => 32,
            TypedEntry::BlockAccumulator { .. } => 32,
            TypedEntry::Unknown { data, .. } => data.len(),
        }
    }
}

/// Whether entries of this type carry Snappy-compressed data that the readers
/// decompress.
pub open spec fn compressed_type(typ: [u8; 2]) -> bool {
    typ == types::TYPE_COMPRESSED_SIGNED_BEACON_BLOCK || typ == types::TYPE_COMPRESSED_BEACON_STATE
        || typ == types::TYPE_COMPRESSED_HEADER
}

/// See [`compressed_type`].
pub fn is_compressed(typ: [u8; 2]) -> (r: bool)
    ensures
        r == compressed_type(typ),
{
    types::same_type(typ, types::TYPE_COMPRESSED_SIGNED_BEACON_BLOCK) || types::same_type(
        typ,
        types::TYPE_COMPRESSED_BEACON_STATE,
    ) || types::same_type(typ, types::TYPE_COMPRESSED_HEADER)
}

/// The error for a malformed index.
pub open spec fn bad_index(message: Seq<char>) -> ErrorView {
    error::invalid_era_view("bad block index: "@ + message)
}

/// The error for a value that is not 32 bytes long.
pub open spec fn bad_word(len: nat) -> ErrorView {
    ErrorView::E2Store(
        E2StoreErrorView::InvalidEra1("total difficulty must be 32 bytes, got "@ + text::dec(len)),
    )
}

/// The 32 bytes of `data` as an array.
pub open spec fn word_of(data: Seq<u8>) -> [u8; 32] {
    choose|a: [u8; 32]| a@ == data
}

/// The typed entry for a raw one whose data, if compressed, decompresses to
/// `payload`.
pub open spec fn typed_with(entry: EntryView, payload: Result<Seq<u8>, ErrorView>) -> Result<
    TypedEntryView,
    ErrorView,
> {
    let typ = entry.header.typ;
    if compressed_type(typ) {
        match payload {
            Err(e) => Err(e),
            Ok(data) => Ok(
                if typ == types::TYPE_COMPRESSED_SIGNED_BEACON_BLOCK {
                    TypedEntryView::BeaconBlock { data }
                } else if typ == types::TYPE_COMPRESSED_BEACON_STATE {
                    TypedEntryView::BeaconState { data }
                } else {
                    TypedEntryView::Header { data }
                },
            ),
        }
    } else if typ == types::TYPE_BLOCK_INDEX {
        match era::slot_index_of(entry.data) {
            Ok(index) => Ok(TypedEntryView::BlockIndex { index }),
            Err(message) => Err(bad_index(message)),
        }
    } else if typ == types::TYPE_STATE_INDEX {
        match era::slot_index_of(entry.data) {
            Ok(index) => Ok(TypedEntryView::StateIndex { index }),
            Err(message) => Err(bad_index(message)),
        }
    } else if typ == types::TYPE_COMPRESSED_BODY {
        Ok(TypedEntryView::BlockBody { data: entry.data })
    } else if typ == types::TYPE_COMPRESSED_RECEIPTS {
        Ok(TypedEntryView::Receipts { data: entry.data })
    } else if typ == types::TYPE_TOTAL_DIFFICULTY {
        if entry.data.len() != 32 {
            Err(bad_word(entry.data.len()))
        } else {
            Ok(TypedEntryView::TotalDifficulty { value: U256(word_of(entry.data)) })
        }
    } else if typ == types::TYPE_ACCUMULATOR {
        if entry.data.len() != 32 {
            Err(bad_word(entry.data.len()))
        } else {
            Ok(TypedEntryView::BlockAccumulator { root: word_of(entry.data) })
        }
    } else {
        Ok(TypedEntryView::Unknown { typ, data: entry.data })
    }
}

/// The typed entry for a raw one.
pub open spec fn typed_of(entry: EntryView) -> Result<TypedEntryView, ErrorView> {
    typed_with(entry, era::payload_of(era::snappy_decoded(entry.data)))
}

/// [`word_of`] gives the array with the given bytes.
pub proof fn lemma_word(a: [u8; 32])
    ensures
        word_of(a@) == a,
{
    let b = word_of(a@);
    assert(b@ == a@);
    assert(b =~= a);
}

fn bad_word_error(len: usize) -> (e: Error)
    ensures
        e@ == bad_word(len as nat),
{
    let mut s = "total difficulty must be 32 bytes, got ".to_owned();
    text::push_dec(&mut s, len as u64);
    Error::E2Store(E2StoreError::InvalidEra1(s))
}

/// Decode an index entry's data.
pub fn decode_index(data: &[u8]) -> (r: Result<SlotIndex, Error>)
    ensures
        model::result_view(r) == (match era::slot_index_of(data@) {
            Ok(index) => Ok::<SlotIndexView, ErrorView>(index),
            Err(message) => Err(bad_index(message)),
        }),
{
    match SlotIndex::decode(data) {
        Ok(index) => Ok(index),
        Err(message) => Err(
            Error::invalid_era("bad block index: ".to_owned().concat(message.as_str())),
        ),
    }
}

/// Make a typed entry of a raw one whose data, if it is of a compressed type,
/// decompresses to `payload`. For other types `payload` has no part in it.
pub fn typed_entry(entry: Entry, payload: Result<Vec<u8>, Error>) -> (r: Result<TypedEntry, Error>)
    ensures
        model::result_view(r) == typed_with(entry@, model::result_view(payload)),
{
    let typ: [u8; 2] = entry.header.typ;
    let data = entry.data;
    if is_compressed(typ) {
        let data = match payload {
            Ok(data) => data,
            Err(e) => {
                return Err(e);
            },
        };
        if types::same_type(typ, types::TYPE_COMPRESSED_SIGNED_BEACON_BLOCK) {
            Ok(TypedEntry::BeaconBlock { data })
        } else if types::same_type(typ, types::TYPE_COMPRESSED_BEACON_STATE) {
            Ok(TypedEntry::BeaconState { data })
        } else {
            Ok(TypedEntry::Header { data })
        }
    } else if types::same_type(typ, types::TYPE_BLOCK_INDEX) {
        match decode_index(data.as_slice()) {
            Ok(index) => Ok(TypedEntry::BlockIndex { index }),
            Err(e) => Err(e),
        }
    } else if types::same_type(typ, types::TYPE_STATE_INDEX) {
        match decode_index(data.as_slice()) {
            Ok(index) => Ok(TypedEntry::StateIndex { index }),
            Err(e) => Err(e),
        }
    } else if types::same_type(typ, types::TYPE_COMPRESSED_BODY) {
        Ok(TypedEntry::BlockBody { data })
    } else if types::same_type(typ, types::TYPE_COMPRESSED_RECEIPTS) {
        Ok(TypedEntry::Receipts { data })
    } else if types::same_type(typ, types::TYPE_TOTAL_DIFFICULTY) {
        if data.len() != 32 {
            return Err(bad_word_error(data.len()));
        }
        let word: [u8; 32] = era1::array_at(data.as_slice(), 0);
        proof {
            assert(word@ =~= data@);
            lemma_word(word);
        }
        Ok(TypedEntry::TotalDifficulty { value: U256(word) })
    } else if types::same_type(typ, types::TYPE_ACCUMULATOR) {
        if data.len() != 32 {
            return Err(bad_word_error(data.len()));
        }
        let word: [u8; 32] = era1::array_at(data.as_slice(), 0);
        proof {
            assert(word@ =~= data@);
            lemma_word(word);
        }
        Ok(TypedEntry::BlockAccumulator { root: word })
    } else {
        Ok(TypedEntry::Unknown { typ, data })
    }
}

/// Decode a raw e2store entry into a typed entry.
pub fn decode_entry(entry: Entry) -> (r: Result<TypedEntry, Error>)
    ensures
        model::result_view(r) == typed_of(entry@),
{
    let payload = if is_compressed(entry.header.typ) {
        era::decompress_entry(entry.data.as_slice())
    } else {
        Ok(Vec::new())
    };
    typed_entry(entry, payload)
}

/// A raw entry with a generic slot index told apart: the first one of a file is
/// its block index, a later one its state index.
pub open spec fn index_resolved(entry: EntryView, slot_index_seen: bool) -> EntryView {
    if entry.header.typ == types::TYPE_SLOT_INDEX {
        EntryView {
            header: Header {
                typ: if slot_index_seen {
                    types::TYPE_STATE_INDEX
                } else {
                    types::TYPE_BLOCK_INDEX
                },
                ..entry.header
            },
            data: entry.data,
        }
    } else {
        entry
    }
}

/// Streaming reader that yields typed entries from an ERA or ERA1 file.
///
/// Detects the file format from the first entry after the version and decodes
/// entries accordingly. Snappy-compressed payloads are decompressed.
pub struct EraReader<'a> {
    inner: E2StoreReader<'a>,
    format: Option<EraFormat>,
    version_consumed: bool,
    slot_index_seen: bool,
}

/// The model of [`EraReader`].
#[verifier::ext_equal]
pub struct EraReaderView {
    /// The bytes that are still to be read.
    pub rest: Seq<u8>,
    pub format: Option<EraFormat>,
    pub version_consumed: bool,
    pub slot_index_seen: bool,
}

impl<'a> View for EraReader<'a> {
    type V = EraReaderView;

    closed spec fn view(&self) -> EraReaderView {
        EraReaderView {
            rest: self.inner@,
            format: self.format,
            version_consumed: self.version_consumed,
            slot_index_seen: self.slot_index_seen,
        }
    }
}

impl EraReaderView {
    /// A reader that has read nothing yet.
    pub open spec fn start(s: Seq<u8>) -> EraReaderView {
        EraReaderView { rest: s, format: None, version_consumed: false, slot_index_seen: false }
    }

    /// The reader after the entry that stands next, its version entry aside.
    pub open spec fn past_entry(self) -> EraReaderView {
        match e2store::next_entry_of(self.rest) {
            Ok(Some(raw)) => EraReaderView {
                rest: e2store::after_entry(self.rest),
                format: match self.format {
                    Some(f) => Some(f),
                    None => Some(format_of_type(raw.header.typ)),
                },
                version_consumed: self.version_consumed,
                slot_index_seen: self.slot_index_seen || raw.header.typ == types::TYPE_SLOT_INDEX,
            },
            _ => EraReaderView { rest: e2store::after_entry(self.rest), ..self },
        }
    }

    /// What the entry that stands next decodes to, its version entry aside.
    pub open spec fn entry_here(self) -> Result<Option<TypedEntryView>, ErrorView> {
        match e2store::next_entry_of(self.rest) {
            Err(e) => Err(ErrorView::Io(e)),
            Ok(None) => Ok(None),
            Ok(Some(raw)) => match typed_of(index_resolved(raw, self.slot_index_seen)) {
                Ok(t) => Ok(Some(t)),
                Err(e) => Err(e),
            },
        }
    }

    /// The reader after the version entry.
    pub open spec fn past_version(self) -> EraReaderView {
        EraReaderView {
            rest: e2store::after_entry(self.rest),
            version_consumed: true,
            ..self
        }
    }

    /// What [`EraReader::next_entry`] returns.
    pub open spec fn next(self) -> Result<Option<TypedEntryView>, ErrorView> {
        if self.version_consumed {
            self.entry_here()
        } else {
            match e2store::next_entry_of(self.rest) {
                Err(e) => Err(ErrorView::Io(e)),
                Ok(None) => Err(error::missing_version_view()),
                Ok(Some(raw)) => if raw.header.typ != types::TYPE_VERSION {
                    Err(error::missing_version_view())
                } else {
                    self.past_version().entry_here()
                },
            }
        }
    }

    /// The reader after [`EraReader::next_entry`].
    pub open spec fn after(self) -> EraReaderView {
        if self.version_consumed {
            self.past_entry()
        } else {
            match e2store::next_entry_of(self.rest) {
                Ok(Some(raw)) => if raw.header.typ != types::TYPE_VERSION {
                    self.past_version()
                } else {
                    self.past_version().past_entry()
                },
                _ => EraReaderView { rest: e2store::after_entry(self.rest), ..self },
            }
        }
    }

    /// The typed entries up to the end, or up to the first that cannot be read.
    pub open spec fn entries(self) -> Seq<TypedEntryView>
        decreases self.rest.len(),
    {
        match self.next() {
            Ok(Some(t)) => seq![t] + self.after().entries(),
            _ => Seq::empty(),
        }
    }

    /// Why the typed entries stop before the end, if they do.
    pub open spec fn failure(self) -> Option<ErrorView>
        decreases self.rest.len(),
    {
        match self.next() {
            Ok(Some(t)) => self.after().failure(),
            Ok(None) => None,
            Err(e) => Some(e),
        }
    }

    /// The reader after the last of [`Self::entries`] and the end or the
    /// failure that follows it.
    pub open spec fn finished(self) -> EraReaderView
        decreases self.rest.len(),
    {
        match self.next() {
            Ok(Some(t)) => self.after().finished(),
            _ => self.after(),
        }
    }
}

impl<'a> EraReader<'a> {
    /// Create a new reader. Does not read anything until
    /// [`next_entry`](Self::next_entry) is called.
    pub fn new(inner: &'a [u8]) -> (r: Self)
        ensures
            r@ == EraReaderView::start(inner@),
    {
        EraReader {
            inner: E2StoreReader::new(inner),
            format: None,
            version_consumed: false,
            slot_index_seen: false,
        }
    }

    /// Return the detected file format, or `None` if no entry after the
    /// version has been read yet.
    pub fn format(&self) -> (f: Option<EraFormat>)
        ensures
            f == self@.format,
    {
        self.format
    }

    /// Read the entry that stands next; the version entry has been read.
    fn next_after_version(&mut self) -> (r: Result<Option<TypedEntry>, Error>)
        ensures
            model::found_view(r) == old(self)@.entry_here(),
            final(self)@ == old(self)@.past_entry(),
    {
        let raw = match self.inner.next_entry() {
            Ok(Some(e)) => e,
            Ok(None) => {
                return Ok(None);
            },
            Err(e) => {
                return Err(Error::Io(e));
            },
        };
        if self.format.is_none() {
            self.format = Some(detect_format(&raw.header.typ));
        }
        let mut entry = raw;
        if types::same_type(entry.header.typ, types::TYPE_SLOT_INDEX) {
            entry.header.typ = if self.slot_index_seen {
                types::TYPE_STATE_INDEX
            } else {
                types::TYPE_BLOCK_INDEX
            };
            self.slot_index_seen = true;
        }
        match decode_entry(entry) {
            Ok(t) => Ok(Some(t)),
            Err(e) => Err(e),
        }
    }

    /// Read the next typed entry. Returns `Ok(None)` at the end.
    ///
    /// The first call consumes and validates the version entry.
    /// Format is detected from the first entry after it.
    pub fn next_entry(&mut self) -> (r: Result<Option<TypedEntry>, Error>)
        ensures
            model::found_view(r) == old(self)@.next(),
            final(self)@ == old(self)@.after(),
    {
        if !self.version_consumed {
            match self.inner.next_entry() {
                Ok(Some(raw)) => {
                    self.version_consumed = true;
                    if !raw.header.is_version() {
                        return Err(Error::missing_version());
                    }
                },
                Ok(None) => {
                    return Err(Error::missing_version());
                },
                Err(e) => {
                    return Err(Error::Io(e));
                },
            }
        }
        self.next_after_version()
    }

    /// Read all remaining typed entries into a Vec.
    pub fn read_all(&mut self) -> (r: Result<Vec<TypedEntry>, Error>)
        ensures
            final(self)@ == old(self)@.finished(),
            match r {
                Ok(entries) => model::views(entries@) == old(self)@.entries() && old(
                    self,
                )@.failure() is None,
                Err(e) => old(self)@.failure() == Some(e@),
            },
    {
        let mut entries: Vec<TypedEntry> = Vec::new();
        let ghost start = self@;
        assert(model::views(entries@) + self@.entries() =~= start.entries());
        loop
            invariant
                start == old(self)@,
                start.entries() == model::views(entries@) + self@.entries(),
                start.failure() == self@.failure(),
                start.finished() == self@.finished(),
            decreases self@.rest.len(),
        {
            let ghost so_far = entries@;
            match self.next_entry() {
                Ok(Some(entry)) => {
                    entries.push(entry);
                    proof {
                        model::lemma_views_push(so_far, entry);
                        assert(model::views(so_far) + (seq![entry@] + self@.entries())
                            =~= model::views(entries@) + self@.entries());
                    }
                },
                Ok(None) => {
                    assert(model::views(entries@) + Seq::empty() =~= model::views(entries@));
                    return Ok(entries);
                },
                Err(e) => {
                    return Err(e);
                },
            }
        }
    }

    /// Unwrap the source: the bytes that have not been read.
    pub fn into_inner(self) -> (inner: &'a [u8])
        ensures
            inner@ == self@.rest,
    {
        self.inner.into_inner()
    }
}

} // verus!
