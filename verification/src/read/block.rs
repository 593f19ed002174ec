//! Blocks and the reader that assembles them.

use vstd::prelude::*;

use crate::error::{Error, ErrorView};
use crate::format::era1;
use crate::format::era1::U256;
use crate::model;
use crate::read::typed::{EraFormat, EraReader, EraReaderView, TypedEntry, TypedEntryView};

verus! {

/// A fully-assembled ERA1 block.
#[derive(Debug, Clone)]
pub struct Era1Block {
    /// Decompressed, RLP-encoded block header.
    pub header: Vec<u8>,
    /// RLP-encoded block body.
    pub body: Vec<u8>,
    /// RLP-encoded receipts (may be empty for some testnets).
    pub receipts: Vec<u8>,
    /// Total difficulty at this block.
    pub total_difficulty: U256,
}

/// The model of [`Era1Block`].
#[verifier::ext_equal]
pub struct Era1BlockView {
    pub header: Seq<u8>,
    pub body: Seq<u8>,
    pub receipts: Seq<u8>,
    pub total_difficulty: U256,
}

impl View for Era1Block {
    type V = Era1BlockView;

    open spec fn view(&self) -> Era1BlockView {
        Era1BlockView {
            header: self.header@,
            body: self.body@,
            receipts: self.receipts@,
            total_difficulty: self.total_difficulty,
        }
    }
}

/// A fully-assembled ERA block.
#[derive(Debug, Clone)]
pub struct EraBlock {
    /// Decompressed signed beacon block (SSZ-encoded).
    pub block: Vec<u8>,
}

/// An assembled block from either format.
#[derive(Debug, Clone)]
pub enum Block {
    Era(EraBlock),
    Era1(Era1Block),
}

/// The model of [`Block`].
#[verifier::ext_equal]
pub enum BlockView {
    /// The signed beacon block.
    Era(Seq<u8>),
    Era1(Era1BlockView),
}

impl View for Block {
    type V = BlockView;

    open spec fn view(&self) -> BlockView {
        match *self {
            Block::Era(b) => BlockView::Era(b.block@),
            Block::Era1(b) => BlockView::Era1(b@),
        }
    }
}

impl BlockView {
    /// The primary data: the signed beacon block or the header.
    pub open spec fn primary(self) -> Seq<u8> {
        match self {
            BlockView::Era(block) => block,
            BlockView::Era1(b) => b.header,
        }
    }

    /// The size of all components in bytes.
    pub open spec fn size(self) -> nat {
        match self {
            BlockView::Era(block) => block.len(),
            BlockView::Era1(b) => b.header.len() + b.body.len() + b.receipts.len() + 32,
        }
    }
}

impl Block {
    /// Return the raw bytes of the primary block data.
    ///
    /// For ERA, this is the SSZ-encoded signed beacon block.
    /// For ERA1, this is the RLP-encoded header.
    pub fn primary_data(&self) -> (data: &[u8])
        ensures
            data@ == self@.primary(),
    {
        match self {
            Block::Era(b) => b.block.as_slice(),
            Block::Era1(b) => b.header.as_slice(),
        }
    }

    /// Total size in bytes of all components, which must fit in a `usize`.
    pub fn total_size(&self) -> (n: usize)
        requires
            self@.size() <= usize::MAX,
        ensures
            n == self@.size(),
    {
        match self {
            Block::Era(b) => b.block.len(),
            Block::Era1(b) => b.header.len() + b.body.len() + b.receipts.len() + 32,
        }
    }
}

/// The parts of an ERA1 block that have been read so far.
pub struct Era1Assembly {
    pub header: Option<Vec<u8>>,
    pub body: Option<Vec<u8>>,
    pub receipts: Option<Vec<u8>>,
    pub total_difficulty: Option<U256>,
}

/// The model of [`Era1Assembly`].
#[verifier::ext_equal]
pub struct Era1AssemblyView {
    pub header: Option<Seq<u8>>,
    pub body: Option<Seq<u8>>,
    pub receipts: Option<Seq<u8>>,
    pub total_difficulty: Option<U256>,
}

impl View for Era1Assembly {
    type V = Era1AssemblyView;

    open spec fn view(&self) -> Era1AssemblyView {
        Era1AssemblyView {
            header: model::option_view(self.header),
            body: model::option_view(self.body),
            receipts: model::option_view(self.receipts),
            total_difficulty: self.total_difficulty,
        }
    }
}

/// The bytes of a part, which are none if the part is missing.
pub open spec fn part(p: Option<Seq<u8>>) -> Seq<u8> {
    match p {
        Some(data) => data,
        None => Seq::empty(),
    }
}

impl Era1AssemblyView {
    /// Nothing has been read.
    pub open spec fn empty() -> Era1AssemblyView {
        Era1AssemblyView { header: None, body: None, receipts: None, total_difficulty: None }
    }

    /// The block that the parts make, if there is a header.
    pub open spec fn block(self) -> Option<BlockView> {
        match self.header {
            None => None,
            Some(header) => Some(
                BlockView::Era1(
                    Era1BlockView {
                        header,
                        body: part(self.body),
                        receipts: part(self.receipts),
                        total_difficulty: match self.total_difficulty {
                            Some(value) => value,
                            None => era1::zero_difficulty(),
                        },
                    },
                ),
            ),
        }
    }

    /// The parts that are left after the block has been taken out.
    pub open spec fn taken(self) -> Era1AssemblyView {
        if self.header is Some {
            Era1AssemblyView::empty()
        } else {
            self
        }
    }

    /// The parts after an entry has been read.
    pub open spec fn with(self, entry: TypedEntryView) -> Era1AssemblyView {
        match entry {
            TypedEntryView::Header { data } => Era1AssemblyView {
                header: Some(data),
                ..Era1AssemblyView::empty()
            },
            TypedEntryView::BlockBody { data } => Era1AssemblyView { body: Some(data), ..self },
            TypedEntryView::Receipts { data } => Era1AssemblyView { receipts: Some(data), ..self },
            TypedEntryView::TotalDifficulty { value } => Era1AssemblyView {
                total_difficulty: Some(value),
                ..self
            },
            _ => self,
        }
    }

    /// The block that an entry completes: a beacon block by itself, a header
    /// the ERA1 block before it.
    pub open spec fn completed_by(self, entry: TypedEntryView) -> Option<BlockView> {
        match entry {
            TypedEntryView::BeaconBlock { data } => Some(BlockView::Era(data)),
            TypedEntryView::Header { .. } => self.block(),
            _ => None,
        }
    }
}

fn bytes_or_none(p: Option<Vec<u8>>) -> (data: Vec<u8>)
    ensures
        data@ == part(model::option_view(p)),
{
    match p {
        Some(data) => data,
        None => {
            let data: Vec<u8> = Vec::new();
            assert(data@ =~= Seq::empty());
            data
        },
    }
}

impl Era1Assembly {
    pub fn new() -> (a: Self)
        ensures
            a@ == Era1AssemblyView::empty(),
    {
        Era1Assembly { header: None, body: None, receipts: None, total_difficulty: None }
    }

    /// Assemble and return the pending ERA1 block, if we have a header.
    pub fn flush_era1_block(&mut self) -> (b: Option<Block>)
        ensures
            model::option_view(b) == old(self)@.block(),
            final(self)@ == old(self)@.taken(),
    {
        let header = match self.header.take() {
            Some(header) => header,
            None => {
                return None;
            },
        };
        let body = bytes_or_none(self.body.take());
        let receipts = bytes_or_none(self.receipts.take());
        let total_difficulty = match self.total_difficulty.take() {
            Some(value) => value,
            None => U256::zero(),
        };
        Some(Block::Era1(Era1Block { header, body, receipts, total_difficulty }))
    }

    /// Take in an entry, and return the block that it completes.
    pub fn accept(&mut self, entry: TypedEntry) -> (b: Option<Block>)
        ensures
            model::option_view(b) == old(self)@.completed_by(entry@),
            final(self)@ == old(self)@.with(entry@),
    {
        match entry {
            // ERA: immediate yield
            TypedEntry::BeaconBlock { data } => Some(Block::Era(EraBlock { block: data })),
            // ERA1: accumulate
            TypedEntry::Header { data } => {
                // New header means the previous block is complete
                let pending = self.flush_era1_block();
                self.header = Some(data);
                self.body = None;
                self.receipts = None;
                self.total_difficulty = None;
                pending
            },
            TypedEntry::BlockBody { data } => {
                self.body = Some(data);
                None
            },
            TypedEntry::Receipts { data } => {
                self.receipts = Some(data);
                None
            },
            TypedEntry::TotalDifficulty { value } => {
                self.total_difficulty = Some(value);
                None
            },
            // Skip non-block entries
            _ => None,
        }
    }
}

/// Block-level reader that assembles related entries into complete blocks.
///
/// For ERA1 files, this collects `Header`, `BlockBody`, `Receipts` and
/// `TotalDifficulty` into a single [`Era1Block`].
///
/// For ERA files, each `BeaconBlock` entry yields one block immediately.
///
/// # Entry ordering
///
/// ERA1 entries for a single block are expected in this order:
///
/// 1. `CompressedHeader`
/// 2. `BlockBody`
/// 3. `Receipts` (optional)
/// 4. `TotalDifficulty`
///
/// A new `CompressedHeader` signals that the previous block is complete
/// and triggers its emission. At the end, any pending block is flushed.
pub struct EraBlockReader<'a> {
    inner: EraReader<'a>,
    format: Option<EraFormat>,
    pending: Era1Assembly,
}

/// The model of [`EraBlockReader`].
#[verifier::ext_equal]
pub struct EraBlockReaderView {
    pub inner: EraReaderView,
    pub format: Option<EraFormat>,
    pub pending: Era1AssemblyView,
}

impl<'a> View for EraBlockReader<'a> {
    type V = EraBlockReaderView;

    closed spec fn view(&self) -> EraBlockReaderView {
        EraBlockReaderView {
            inner: self.inner@,
            format: self.format,
            pending: self.pending@,
        }
    }
}

impl EraBlockReaderView {
    /// A reader that has read nothing yet.
    pub open spec fn start(s: Seq<u8>) -> EraBlockReaderView {
        EraBlockReaderView {
            inner: EraReaderView::start(s),
            format: None,
            pending: Era1AssemblyView::empty(),
        }
    }

    /// The reader after one typed entry.
    pub open spec fn step(self, entry: TypedEntryView) -> EraBlockReaderView {
        EraBlockReaderView {
            inner: self.inner.after(),
            format: match self.format {
                Some(f) => Some(f),
                None => self.inner.after().format,
            },
            pending: self.pending.with(entry),
        }
    }

    /// What [`EraBlockReader::next_block`] returns.
    pub open spec fn next(self) -> Result<Option<BlockView>, ErrorView>
        decreases self.inner.rest.len(),
    {
        match self.inner.next() {
            Err(e) => Err(e),
            Ok(None) => Ok(self.pending.block()),
            Ok(Some(entry)) => match self.pending.completed_by(entry) {
                Some(block) => Ok(Some(block)),
                None => self.step(entry).next(),
            },
        }
    }

    /// The reader after [`EraBlockReader::next_block`].
    pub open spec fn after(self) -> EraBlockReaderView
        decreases self.inner.rest.len(),
    {
        match self.inner.next() {
            Err(e) => EraBlockReaderView { inner: self.inner.after(), ..self },
            Ok(None) => EraBlockReaderView {
                inner: self.inner.after(),
                format: self.format,
                pending: self.pending.taken(),
            },
            Ok(Some(entry)) => match self.pending.completed_by(entry) {
                Some(block) => self.step(entry),
                None => self.step(entry).after(),
            },
        }
    }

    /// How much is left to deliver: bytes, and then a block without successor.
    pub open spec fn measure(self) -> nat {
        2 * self.inner.rest.len() + if self.pending.header is Some {
            1nat
        } else {
            0nat
        }
    }

    /// The blocks up to the end, or up to the first that cannot be read.
    pub open spec fn blocks(self) -> Seq<BlockView>
        decreases self.measure(),
        via Self::blocks_decreases
    {
        match self.next() {
            Ok(Some(block)) => seq![block] + self.after().blocks(),
            _ => Seq::empty(),
        }
    }

    #[via_fn]
    proof fn blocks_decreases(self) {
        lemma_after_block(self);
    }

    /// Why the blocks stop before the end, if they do.
    pub open spec fn failure(self) -> Option<ErrorView>
        decreases self.measure(),
        via Self::failure_decreases
    {
        match self.next() {
            Ok(Some(block)) => self.after().failure(),
            Ok(None) => None,
            Err(e) => Some(e),
        }
    }

    #[via_fn]
    proof fn failure_decreases(self) {
        lemma_after_block(self);
    }
}

/// Each block that is delivered brings the reader nearer to its end.
pub proof fn lemma_after_block(v: EraBlockReaderView)
    ensures
        v.after().inner.rest.len() <= v.inner.rest.len(),
        v.next() matches Ok(Some(_)) ==> v.after().measure() < v.measure(),
    decreases v.inner.rest.len(),
{
    match v.inner.next() {
        Ok(Some(entry)) => {
            if v.pending.completed_by(entry) is None {
                lemma_after_block(v.step(entry));
            }
        },
        _ => {},
    }
}

impl<'a> EraBlockReader<'a> {
    /// Create a new block-level reader.
    pub fn new(inner: &'a [u8]) -> (r: Self)
        ensures
            r@ == EraBlockReaderView::start(inner@),
    {
        EraBlockReader {
            inner: EraReader::new(inner),
            format: None,
            pending: Era1Assembly::new(),
        }
    }

    /// Return the detected format, if known.
    pub fn format(&self) -> (f: Option<EraFormat>)
        ensures
            f == (match self@.format {
                Some(f) => Some(f),
                None => self@.inner.format,
            }),
    {
        match self.format {
            Some(f) => Some(f),
            None => self.inner.format(),
        }
    }

    /// Read the next assembled block. Returns `Ok(None)` at the end.
    ///
    /// For ERA files, each `BeaconBlock` entry yields one block immediately.
    /// For ERA1 files, entries are accumulated until a new header is seen
    /// (or the end), at which point the previous block is emitted.
    pub fn next_block(&mut self) -> (r: Result<Option<Block>, Error>)
        ensures
            model::found_view(r) == old(self)@.next(),
            final(self)@ == old(self)@.after(),
    {
        let ghost start = self@;
        loop
            invariant
                start == old(self)@,
                start.next() == self@.next(),
                start.after() == self@.after(),
            decreases self@.inner.rest.len(),
        {
            let ghost before = self@;
            let entry = match self.inner.next_entry() {
                Ok(Some(e)) => e,
                Ok(None) => {
                    // Flush any pending block
                    return Ok(self.pending.flush_era1_block());
                },
                Err(e) => {
                    return Err(e);
                },
            };
            // Detect format on first real entry
            if self.format.is_none() {
                self.format = self.inner.format();
            }
            let ghost typed = entry@;
            let block = self.pending.accept(entry);
            assert(self@ == before.step(typed));
            if block.is_some() {
                return Ok(block);
            }
        }
    }

    /// Unwrap the source: the bytes that have not been read.
    pub fn into_inner(self) -> (inner: &'a [u8])
        ensures
            inner@ == self@.inner.rest,
    {
        self.inner.into_inner()
    }
}

} // verus!
