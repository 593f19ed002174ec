//! What the `read` command selects, reports and writes.

use vstd::prelude::*;

use crate::bytes;
use crate::cli;
use crate::error::{Error, ErrorView};
use crate::fs::directory::ArchiveDirectory;
use crate::model;
use crate::read::block;
use crate::read::block::{Block, BlockView, EraBlockReader, EraBlockReaderView};
use crate::read::random::{EraRandomReader, EraRandomReaderView};
use crate::text;
use crate::verify::hash;

verus! {

/// A block in brief.
#[derive(Debug, Clone)]
pub struct BlockSummary {
    pub slot: u64,
    pub format: String,
    pub size: usize,
    pub size_human: String,
    pub hash_prefix: String,
}

/// The model of [`BlockSummary`].
#[verifier::ext_equal]
pub struct BlockSummaryView {
    pub slot: u64,
    pub format: Seq<char>,
    pub size: usize,
    pub size_human: Seq<char>,
    pub hash_prefix: Seq<char>,
}

impl View for BlockSummary {
    type V = BlockSummaryView;

    open spec fn view(&self) -> BlockSummaryView {
        BlockSummaryView {
            slot: self.slot,
            format: self.format@,
            size: self.size,
            size_human: self.size_human@,
            hash_prefix: self.hash_prefix@,
        }
    }
}

impl BlockSummaryView {
    /// The summary as text.
    pub open spec fn text(self) -> Seq<char> {
        "slot="@ + text::left_aligned(text::dec(self.slot as nat), 8) + " "@ + text::right_aligned(
            self.format,
            4,
        ) + "  "@ + self.size_human + "  "@ + self.hash_prefix
    }
}

impl BlockSummary {
    /// The summary as text.
    pub fn to_string(&self) -> (s: String)
        ensures
            s@ == self@.text(),
    {
        let mut s = "slot=".to_owned();
        text::push_left_aligned(&mut s, text::dec_string(self.slot).as_str(), 8);
        s.append(" ");
        text::push_right_aligned(&mut s, self.format.as_str(), 4);
        s.append("  ");
        s.append(self.size_human.as_str());
        s.append("  ");
        s.append(self.hash_prefix.as_str());
        s
    }
}

/// A beacon state in brief.
#[derive(Debug, Clone)]
pub struct StateSummary {
    pub size: usize,
    pub size_human: String,
    pub hash_prefix: String,
}

/// The model of [`StateSummary`].
#[verifier::ext_equal]
pub struct StateSummaryView {
    pub size: usize,
    pub size_human: Seq<char>,
    pub hash_prefix: Seq<char>,
}

impl View for StateSummary {
    type V = StateSummaryView;

    open spec fn view(&self) -> StateSummaryView {
        StateSummaryView {
            size: self.size,
            size_human: self.size_human@,
            hash_prefix: self.hash_prefix@,
        }
    }
}

/// What has been read from a file.
#[derive(Debug, Clone)]
pub struct ReadResult {
    pub blocks: Vec<BlockSummary>,
    pub state: Option<StateSummary>,
}

/// The model of [`ReadResult`].
#[verifier::ext_equal]
pub struct ReadResultView {
    pub blocks: Seq<BlockSummaryView>,
    pub state: Option<StateSummaryView>,
}

impl View for ReadResult {
    type V = ReadResultView;

    open spec fn view(&self) -> ReadResultView {
        ReadResultView {
            blocks: model::views(self.blocks@),
            state: model::option_view(self.state),
        }
    }
}

/// The lines of the first `n` blocks.
pub open spec fn block_lines(blocks: Seq<BlockSummaryView>, n: int) -> Seq<char>
    decreases n,
{
    if n <= 0 {
        Seq::empty()
    } else {
        block_lines(blocks, n - 1) + blocks[n - 1].text() + "\n"@
    }
}

/// The line of the state, if there is one.
pub open spec fn state_line(state: Option<StateSummaryView>) -> Seq<char> {
    match state {
        None => Seq::empty(),
        Some(s) => "state          "@ + s.size_human + "  "@ + s.hash_prefix + "\n"@,
    }
}

impl ReadResultView {
    /// The report as text.
    pub open spec fn text(self) -> Seq<char> {
        block_lines(self.blocks, self.blocks.len() as int) + state_line(self.state)
    }
}

impl ReadResult {
    /// The report as text.
    pub fn to_string(&self) -> (s: String)
        ensures
            s@ == self@.text(),
    {
        let ghost blocks = model::views(self.blocks@);
        let mut s: String = String::new();
        let mut i: usize = 0;
        assert(s@ =~= Seq::empty());
        while i < self.blocks.len()
            invariant
                i <= self.blocks@.len(),
                blocks == model::views(self.blocks@),
                s@ == block_lines(blocks, i as int),
            decreases self.blocks@.len() - i,
        {
            s.append(self.blocks[i].to_string().as_str());
            s.append("\n");
            i = i + 1;
        }
        match &self.state {
            None => {
                assert(s@ + Seq::empty() =~= s@);
            },
            Some(state) => {
                let mut line = "state          ".to_owned();
                line.append(state.size_human.as_str());
                line.append("  ");
                line.append(state.hash_prefix.as_str());
                line.append("\n");
                s.append(line.as_str());
            },
        }
        s
    }
}

/// The first `len` bytes of the SHA256 digest of some data, in hexadecimal
/// notation.
pub open spec fn digest_prefix(data: Seq<u8>, len: int) -> Seq<char> {
    text::hex_text(hash::sha256_digest(data).take(len))
}

/// The first `len` bytes of a digest in hexadecimal notation.
pub fn prefix_text(digest: &[u8; 32], len: usize) -> (s: String)
    requires
        len <= 32,
    ensures
        s@ == text::hex_text(digest@.take(len as int)),
{
    let head: &[u8] = vstd::slice::slice_subrange(digest.as_slice(), 0, len);
    assert(head@ =~= digest@.take(len as int));
    hash::encode_hex(head)
}

/// The first `len` bytes of the SHA256 digest of `data` in hexadecimal
/// notation.
pub fn sha256_prefix(data: &[u8], len: usize) -> (s: String)
    requires
        len <= 32,
    ensures
        s@ == digest_prefix(data@, len as int),
{
    prefix_text(&hash::sha256_file(data), len)
}

/// A digest prefix as it is reported.
pub open spec fn hash_text(data: Seq<u8>) -> Seq<char> {
    "0x"@ + digest_prefix(data, 8)
}

fn reported_hash(data: &[u8]) -> (s: String)
    ensures
        s@ == hash_text(data@),
{
    let mut s = "0x".to_owned();
    s.append(sha256_prefix(data, 8).as_str());
    s
}

/// The name of a block's format.
pub open spec fn block_format(b: BlockView) -> Seq<char> {
    match b {
        BlockView::Era(_) => "ERA"@,
        BlockView::Era1(_) => "ERA1"@,
    }
}

/// A block of a slot in brief.
pub open spec fn summary_of(slot: u64, b: BlockView) -> BlockSummaryView {
    BlockSummaryView {
        slot,
        format: block_format(b),
        size: b.primary().len() as usize,
        size_human: cli::size_text(b.primary().len() as u64),
        hash_prefix: hash_text(b.primary()),
    }
}

/// A state in brief.
pub open spec fn state_summary_of(data: Seq<u8>) -> StateSummaryView {
    StateSummaryView {
        size: data.len() as usize,
        size_human: cli::size_text(data.len() as u64),
        hash_prefix: hash_text(data),
    }
}

pub fn make_block_summary(slot: u64, block: &Block) -> (s: BlockSummary)
    ensures
        s@ == summary_of(slot, block@),
{
    let format = match block {
        Block::Era(_) => "ERA".to_owned(),
        Block::Era1(_) => "ERA1".to_owned(),
    };
    let data = block.primary_data();
    BlockSummary {
        slot,
        format,
        size: data.len(),
        size_human: cli::human_size(data.len() as u64),
        hash_prefix: reported_hash(data),
    }
}

fn make_state_summary(data: &[u8]) -> (s: StateSummary)
    ensures
        s@ == state_summary_of(data@),
{
    StateSummary {
        size: data.len(),
        size_human: cli::human_size(data.len() as u64),
        hash_prefix: reported_hash(data),
    }
}

/// How blocks are to be shown.
#[derive(Debug, Clone, Copy, PartialEq, Eq, Structural)]
pub enum ReadFormat {
    /// Summaries as text.
    Hex,
    /// Summaries as JSON.
    Json,
    /// The bytes.
    Raw,
    /// No format that there is.
    Other,
}

/// The format with this name.
pub open spec fn format_named(name: Seq<char>) -> ReadFormat {
    if name == "hex"@ {
        ReadFormat::Hex
    } else if name == "json"@ {
        ReadFormat::Json
    } else if name == "raw"@ {
        ReadFormat::Raw
    } else {
        ReadFormat::Other
    }
}

impl ReadFormat {
    /// The format with this name.
    pub fn parse(name: &str) -> (f: Self)
        ensures
            f == format_named(name@),
    {
        if text::same_text(name, "hex") {
            ReadFormat::Hex
        } else if text::same_text(name, "json") {
            ReadFormat::Json
        } else if text::same_text(name, "raw") {
            ReadFormat::Raw
        } else {
            ReadFormat::Other
        }
    }
}

/// What the `read` command is asked for.
#[derive(Debug, Clone)]
pub struct ReadArgs {
    /// Path to an ERA, ERA1 file, or directory.
    pub path: String,
    pub slot: Option<u64>,
    pub all: bool,
    pub count: Option<usize>,
    pub state: bool,
    pub format: String,
    pub output: Option<String>,
    pub output_dir: Option<String>,
}

/// Which blocks are to be read.
#[derive(Debug, Clone, Copy, PartialEq, Eq, Structural)]
pub enum ReadPlan {
    /// The block of a slot.
    Slot(u64),
    /// The first blocks, or all.
    Stream(Option<usize>),
}

impl ReadArgs {
    /// Which blocks are to be read from a file.
    pub open spec fn planned(self) -> ReadPlan {
        match self.slot {
            Some(slot) => ReadPlan::Slot(slot),
            None => ReadPlan::Stream(
                if self.all {
                    None
                } else {
                    self.count
                },
            ),
        }
    }

    /// Which blocks are to be read from a directory, if that is told.
    pub open spec fn planned_for_dir(self) -> Option<ReadPlan> {
        match self.slot {
            Some(slot) => Some(ReadPlan::Slot(slot)),
            None => if self.all || self.count is Some {
                Some(ReadPlan::Stream(self.count))
            } else {
                None
            },
        }
    }

    /// Which blocks are to be read from a file.
    pub fn file_plan(&self) -> (p: ReadPlan)
        ensures
            p == self.planned(),
            p == (match self.slot {
                Some(slot) => ReadPlan::Slot(slot),
                None => ReadPlan::Stream(
                    if self.all {
                        None
                    } else {
                        self.count
                    },
                ),
            }),
    {
        match self.slot {
            Some(slot) => ReadPlan::Slot(slot),
            None => if self.all {
                ReadPlan::Stream(None)
            } else {
                ReadPlan::Stream(self.count)
            },
        }
    }

    /// Which blocks are to be read from a directory.
    pub fn dir_plan(&self) -> (r: Result<ReadPlan, String>)
        ensures
            r is Ok <==> self.planned_for_dir() is Some,
            r matches Ok(p) ==> self.planned_for_dir() == Some(p),
            match r {
                Ok(p) => match self.slot {
                    Some(slot) => p == ReadPlan::Slot(slot),
                    None => (self.all || self.count is Some) && p == ReadPlan::Stream(self.count),
                },
                Err(message) => self.slot is None && !self.all && self.count is None && message@
                    == "specify --slot, --all, or --count for directory input"@,
            },
    {
        match self.slot {
            Some(slot) => Ok(ReadPlan::Slot(slot)),
            None => if self.all || self.count.is_some() {
                Ok(ReadPlan::Stream(self.count))
            } else {
                Err("specify --slot, --all, or --count for directory input".to_owned())
            },
        }
    }
}

/// How many of some files are read: only the first if a number of blocks is
/// asked for.
pub open spec fn files_read(files: nat, count: Option<usize>) -> nat {
    if count is Some && files > 1 {
        1
    } else {
        files
    }
}

/// How many files of a directory are read: only the first if a number of
/// blocks is asked for.
pub fn files_to_stream(dir: &ArchiveDirectory, count: Option<usize>) -> (n: usize)
    ensures
        n == files_read(dir.files@.len(), count),
        n == if count is Some && dir.files@.len() > 1 {
            1
        } else {
            dir.files@.len()
        },
{
    if count.is_some() && dir.files.len() > 1 {
        1
    } else {
        dir.files.len()
    }
}

/// Why reading stops.
#[derive(Debug, Clone)]
pub enum ReadError {
    /// The file cannot be opened.
    Open(Error),
    /// A block or the state cannot be read.
    Read(Error),
    /// There is no block at the slot.
    EmptySlot(u64),
    /// There is no such format.
    UnknownFormat(String),
}

/// The model of [`ReadError`].
pub enum ReadErrorView {
    Open(ErrorView),
    Read(ErrorView),
    EmptySlot(u64),
    UnknownFormat(Seq<char>),
}

impl View for ReadError {
    type V = ReadErrorView;

    open spec fn view(&self) -> ReadErrorView {
        match *self {
            ReadError::Open(e) => ReadErrorView::Open(e@),
            ReadError::Read(e) => ReadErrorView::Read(e@),
            ReadError::EmptySlot(slot) => ReadErrorView::EmptySlot(slot),
            ReadError::UnknownFormat(name) => ReadErrorView::UnknownFormat(name@),
        }
    }
}

impl ReadErrorView {
    /// The text of the error.
    pub open spec fn text(self) -> Seq<char> {
        match self {
            ReadErrorView::Open(e) => e.text(),
            ReadErrorView::Read(e) => e.text(),
            ReadErrorView::EmptySlot(slot) => "slot "@ + text::dec(slot as nat)
                + " is empty (skipped slot)"@,
            ReadErrorView::UnknownFormat(name) => "unknown format: "@ + name,
        }
    }
}

impl ReadError {
    /// The text of the error.
    pub fn to_string(&self) -> (s: String)
        ensures
            s@ == self@.text(),
    {
        match self {
            ReadError::Open(e) => e.to_string(),
            ReadError::Read(e) => e.to_string(),
            ReadError::EmptySlot(slot) => {
                let mut s = "slot ".to_owned();
                text::push_dec(&mut s, *slot);
                s.append(" is empty (skipped slot)");
                s
            },
            ReadError::UnknownFormat(name) => "unknown format: ".to_owned().concat(name.as_str()),
        }
    }
}

/// Bytes to be written, and where.
#[derive(Debug, Clone)]
pub enum RawWrite {
    /// To a new file.
    File { path: String, data: Vec<u8> },
    /// To the end of a file.
    Append { path: String, data: Vec<u8> },
    /// To standard output.
    Stdout { data: Vec<u8> },
}

/// The model of [`RawWrite`].
#[verifier::ext_equal]
pub enum RawWriteView {
    File { path: Seq<char>, data: Seq<u8> },
    Append { path: Seq<char>, data: Seq<u8> },
    Stdout { data: Seq<u8> },
}

impl View for RawWrite {
    type V = RawWriteView;

    open spec fn view(&self) -> RawWriteView {
        match *self {
            RawWrite::File { path, data } => RawWriteView::File { path: path@, data: data@ },
            RawWrite::Append { path, data } => RawWriteView::Append { path: path@, data: data@ },
            RawWrite::Stdout { data } => RawWriteView::Stdout { data: data@ },
        }
    }
}

/// How blocks are to be streamed.
#[derive(Debug, Clone)]
pub struct StreamOptions {
    pub limit: Option<usize>,
    pub state: bool,
    pub format: String,
    pub output: Option<String>,
    pub output_dir: Option<String>,
}

/// The model of [`StreamOptions`].
pub struct StreamOptionsView {
    pub limit: Option<usize>,
    pub state: bool,
    pub format: Seq<char>,
    pub output: Option<Seq<char>>,
    pub output_dir: Option<Seq<char>>,
}

impl View for StreamOptions {
    type V = StreamOptionsView;

    open spec fn view(&self) -> StreamOptionsView {
        StreamOptionsView {
            limit: self.limit,
            state: self.state,
            format: self.format@,
            output: model::option_view(self.output),
            output_dir: model::option_view(self.output_dir),
        }
    }
}

/// Where the bytes of the block of a slot go: to a file of their own if there is
/// a directory for them.
pub open spec fn raw_write(opts: StreamOptionsView, slot: u64, data: Seq<u8>) -> RawWriteView {
    match opts.output_dir {
        Some(dir) => RawWriteView::File {
            path: dir + "/"@ + text::dec(slot as nat) + ".raw"@,
            data,
        },
        None => match opts.output {
            Some(path) => RawWriteView::Append { path, data },
            None => RawWriteView::Stdout { data },
        },
    }
}

/// What is written of the block of a slot: its bytes in raw output, and in any
/// output if there is a directory for them.
pub open spec fn block_writes(opts: StreamOptionsView, slot: u64, data: Seq<u8>) -> Seq<
    RawWriteView,
> {
    if format_named(opts.format) == ReadFormat::Raw || opts.output_dir is Some {
        seq![raw_write(opts, slot, data)]
    } else {
        Seq::empty()
    }
}

/// What is reported of the block of a slot: a summary, unless the output is raw.
pub open spec fn block_summaries(opts: StreamOptionsView, slot: u64, b: BlockView) -> Seq<
    BlockSummaryView,
> {
    if format_named(opts.format) == ReadFormat::Raw {
        Seq::empty()
    } else {
        seq![summary_of(slot, b)]
    }
}

/// What streaming has come to.
#[verifier::ext_equal]
pub struct StreamView {
    pub writes: Seq<RawWriteView>,
    pub blocks: Seq<BlockSummaryView>,
    pub end: Result<(), ReadErrorView>,
}

/// What streaming comes to when `v` has still to deliver its blocks, the next
/// of which has number `slot`, after `count` blocks with these writes and
/// summaries.
pub open spec fn streamed(
    v: EraBlockReaderView,
    opts: StreamOptionsView,
    slot: u64,
    count: nat,
    writes: Seq<RawWriteView>,
    blocks: Seq<BlockSummaryView>,
) -> StreamView
    decreases v.measure(),
{
    proof {
        block::lemma_after_block(v);
    }
    match v.next() {
        Err(e) => StreamView { writes, blocks, end: Err(ReadErrorView::Read(e)) },
        Ok(None) => StreamView { writes, blocks, end: Ok(()) },
        Ok(Some(b)) => if opts.limit matches Some(limit) && count >= limit {
            StreamView { writes, blocks, end: Ok(()) }
        } else if format_named(opts.format) == ReadFormat::Other {
            StreamView { writes, blocks, end: Err(ReadErrorView::UnknownFormat(opts.format)) }
        } else {
            streamed(
                v.after(),
                opts,
                slot.wrapping_add(1),
                count + 1,
                writes + block_writes(opts, slot, b.primary()),
                blocks + block_summaries(opts, slot, b),
            )
        },
    }
}

/// The state that is to be shown, if one is asked for and there is one.
pub open spec fn state_asked(v: EraRandomReaderView, opts: StreamOptionsView) -> Result<
    Option<Seq<u8>>,
    ErrorView,
> {
    if opts.state {
        v.state()
    } else {
        Ok(None)
    }
}

/// Where the bytes of the state go, if they are written.
pub open spec fn state_writes(opts: StreamOptionsView, state: Option<Seq<u8>>) -> Seq<
    RawWriteView,
> {
    if format_named(opts.format) == ReadFormat::Raw && opts.output_dir is Some && state is Some {
        seq![
            RawWriteView::File { path: opts.output_dir->Some_0 + "/state.raw"@, data: state->Some_0 },
        ]
    } else {
        Seq::empty()
    }
}

/// The slot at which a file starts.
pub open spec fn first_slot(v: EraRandomReaderView) -> u64 {
    match v.index {
        Some((_, idx)) => idx.starting_slot,
        None => 0,
    }
}

/// What [`read_stream`] writes and returns.
pub open spec fn stream_of(data: Seq<u8>, opts: StreamOptionsView) -> (
    Seq<RawWriteView>,
    Result<ReadResultView, ReadErrorView>,
) {
    match EraRandomReaderView::open(data) {
        Err(e) => (Seq::empty(), Err(ReadErrorView::Open(e))),
        Ok(v) => {
            let s = streamed(
                EraBlockReaderView::start(data),
                opts,
                first_slot(v),
                0,
                Seq::empty(),
                Seq::empty(),
            );
            match s.end {
                Err(e) => (s.writes, Err(e)),
                Ok(()) => match state_asked(v, opts) {
                    Err(e) => (s.writes, Err(ReadErrorView::Read(e))),
                    Ok(state) => (
                        s.writes + state_writes(opts, state),
                        Ok(
                            ReadResultView {
                                blocks: s.blocks,
                                state: match state {
                                    Some(data) => Some(state_summary_of(data)),
                                    None => None,
                                },
                            },
                        ),
                    ),
                },
            }
        },
    }
}

fn make_raw_write(opts: &StreamOptions, slot: u64, data: &[u8]) -> (w: RawWrite)
    ensures
        w@ == raw_write(opts@, slot, data@),
{
    let data = vstd::slice::slice_to_vec(data);
    match &opts.output_dir {
        Some(dir) => {
            let mut path = dir.clone();
            path.append("/");
            text::push_dec(&mut path, slot);
            path.append(".raw");
            RawWrite::File { path, data }
        },
        None => match &opts.output {
            Some(path) => RawWrite::Append { path: path.clone(), data },
            None => RawWrite::Stdout { data },
        },
    }
}

/// Show the blocks that a reader has still to deliver, the first of which has
/// number `first`, and append what is to be written and the summaries.
fn stream_blocks(
    reader: EraBlockReader<'_>,
    opts: &StreamOptions,
    first: u64,
    writes: &mut Vec<RawWrite>,
    blocks: &mut Vec<BlockSummary>,
) -> (r: Result<(), ReadError>)
    ensures
        (StreamView {
            writes: model::views(final(writes)@),
            blocks: model::views(final(blocks)@),
            end: model::outcome(r),
        }) == streamed(
            reader@,
            opts@,
            first,
            0,
            model::views(old(writes)@),
            model::views(old(blocks)@),
        ),
{
    let format = ReadFormat::parse(opts.format.as_str());
    let mut source = reader;
    let mut slot: u64 = first;
    // How many blocks may still be put out
    let mut left: Option<usize> = opts.limit;
    let ghost mut count: nat = 0;
    loop
        invariant
            format == format_named(opts@.format),
            match opts.limit {
                Some(limit) => left matches Some(n) && n + count == limit,
                None => left is None,
            },
            streamed(
                reader@,
                opts@,
                first,
                0,
                model::views(old(writes)@),
                model::views(old(blocks)@),
            ) == streamed(
                source@,
                opts@,
                slot,
                count,
                model::views(writes@),
                model::views(blocks@),
            ),
        decreases source@.measure(),
    {
        let ghost all_writes = model::views(writes@);
        let ghost all_blocks = model::views(blocks@);
        proof {
            block::lemma_after_block(source@);
            assert(all_writes + Seq::empty() =~= all_writes);
            assert(all_blocks + Seq::empty() =~= all_blocks);
        }
        let b = match source.next_block() {
            Err(e) => {
                return Err(ReadError::Read(e));
            },
            Ok(None) => {
                return Ok(());
            },
            Ok(Some(b)) => b,
        };
        if let Some(n) = left {
            if n == 0 {
                return Ok(());
            }
            left = Some(n - 1);
        }
        if let ReadFormat::Other = format {
            return Err(ReadError::UnknownFormat(opts.format.clone()));
        }
        if format == ReadFormat::Raw || opts.output_dir.is_some() {
            let ghost before = writes@;
            let w = make_raw_write(opts, slot, b.primary_data());
            writes.push(w);
            proof {
                model::lemma_views_push(before, w);
                assert(all_writes.push(w@) =~= all_writes + seq![w@]);
            }
        }
        if format != ReadFormat::Raw {
            let ghost before = blocks@;
            let s = make_block_summary(slot, &b);
            blocks.push(s);
            proof {
                model::lemma_views_push(before, s);
                assert(all_blocks.push(s@) =~= all_blocks + seq![s@]);
            }
        }
        proof {
            assert(model::views(writes@) == all_writes + block_writes(opts@, slot, b@.primary()));
            assert(model::views(blocks@) == all_blocks + block_summaries(opts@, slot, b@));
            count = count + 1;
        }
        slot = slot.wrapping_add(1);
    }
}

/// Stream blocks sequentially: what is to be written, in order, and the report
/// or why reading stops.
pub fn read_stream(data: &[u8], opts: &StreamOptions) -> (r: (
    Vec<RawWrite>,
    Result<ReadResult, ReadError>,
))
    ensures
        (model::views(r.0@), model::result_view(r.1)) == stream_of(data@, opts@),
{
    let mut writes: Vec<RawWrite> = Vec::new();
    let mut blocks: Vec<BlockSummary> = Vec::new();
    assert(model::views(writes@) =~= Seq::empty());
    assert(model::views(blocks@) =~= Seq::empty());
    // Detect the starting slot for slot numbering
    let mut rr = match EraRandomReader::new(data) {
        Ok(rr) => rr,
        Err(e) => {
            return (writes, Err(ReadError::Open(e)));
        },
    };
    let first: u64 = match rr.starting_slot() {
        Some(slot) => slot,
        None => 0,
    };
    match stream_blocks(EraBlockReader::new(data), opts, first, &mut writes, &mut blocks) {
        Ok(()) => {},
        Err(e) => {
            return (writes, Err(e));
        },
    }
    let state: Option<Vec<u8>> = if opts.state {
        match rr.read_state() {
            Ok(state) => state,
            Err(e) => {
                return (writes, Err(ReadError::Read(e)));
            },
        }
    } else {
        None
    };
    let summary = match &state {
        Some(data) => Some(make_state_summary(data.as_slice())),
        None => None,
    };
    let ghost shown = model::views(writes@);
    let ghost asked = model::option_view(state);
    assert(shown + Seq::empty() =~= shown);
    if let ReadFormat::Raw = ReadFormat::parse(opts.format.as_str()) {
        if let Some(dir) = &opts.output_dir {
            if let Some(data) = state {
                let mut path = dir.clone();
                path.append("/state.raw");
                let w = RawWrite::File { path, data };
                let ghost before = writes@;
                writes.push(w);
                proof {
                    model::lemma_views_push(before, w);
                    assert(model::views(writes@) =~= shown + state_writes(opts@, asked));
                }
            }
        }
    }
    (writes, Ok(ReadResult { blocks, state: summary }))
}

/// What is to be done with a block or a state that was asked for by slot.
#[derive(Debug, Clone)]
pub enum SlotAction {
    /// Print a summary as text.
    Summary(BlockSummary),
    /// Print a summary as JSON.
    Json(BlockSummary),
    /// Write bytes to the output file, which is emptied first, or to standard
    /// output.
    Raw(Vec<u8>),
    /// Print a note to standard error.
    Note(String),
}

/// The model of [`SlotAction`].
#[verifier::ext_equal]
pub enum SlotActionView {
    Summary(BlockSummaryView),
    Json(BlockSummaryView),
    Raw(Seq<u8>),
    Note(Seq<char>),
}

impl View for SlotAction {
    type V = SlotActionView;

    open spec fn view(&self) -> SlotActionView {
        match *self {
            SlotAction::Summary(s) => SlotActionView::Summary(s@),
            SlotAction::Json(s) => SlotActionView::Json(s@),
            SlotAction::Raw(data) => SlotActionView::Raw(data@),
            SlotAction::Note(s) => SlotActionView::Note(s@),
        }
    }
}

/// All bytes of a block: those of an ERA1 block are its header, body, receipts
/// and total difficulty.
pub open spec fn block_bytes(b: BlockView) -> Seq<u8> {
    match b {
        BlockView::Era(data) => data,
        BlockView::Era1(b) => b.header + b.body + b.receipts + b.total_difficulty.0@,
    }
}

/// How a block of a slot is shown.
pub open spec fn block_action(slot: u64, b: BlockView, format: Seq<char>) -> Result<
    SlotActionView,
    ReadErrorView,
> {
    match format_named(format) {
        ReadFormat::Hex => Ok(SlotActionView::Summary(summary_of(slot, b))),
        ReadFormat::Json => Ok(SlotActionView::Json(summary_of(slot, b))),
        ReadFormat::Raw => Ok(SlotActionView::Raw(block_bytes(b))),
        ReadFormat::Other => Err(ReadErrorView::UnknownFormat(format)),
    }
}

/// How a state is shown.
pub open spec fn state_actions(state: Option<Seq<u8>>, format: Seq<char>) -> Seq<SlotActionView> {
    match state {
        None => seq![SlotActionView::Note("no beacon state found in file"@)],
        Some(data) => match format_named(format) {
            ReadFormat::Raw => seq![SlotActionView::Raw(data)],
            ReadFormat::Json => Seq::empty(),
            _ => seq![
                SlotActionView::Note(
                    "state: "@ + cli::size_text(data.len() as u64) + "  0x"@ + digest_prefix(data, 8),
                ),
            ],
        },
    }
}

/// The block of a slot with all its parts.
pub open spec fn whole_block(v: EraRandomReaderView, slot: u64) -> Result<
    BlockView,
    ReadErrorView,
> {
    match v.block_at(slot) {
        Err(e) => Err(ReadErrorView::Read(e)),
        Ok(None) => Err(ReadErrorView::EmptySlot(slot)),
        Ok(Some(BlockView::Era(data))) => Ok(BlockView::Era(data)),
        Ok(Some(BlockView::Era1(b))) => match v.full_block_at(slot) {
            Err(e) => Err(ReadErrorView::Read(e)),
            Ok(None) => Ok(BlockView::Era1(b)),
            Ok(Some(full)) => Ok(BlockView::Era1(full)),
        },
    }
}

/// What [`read_slot`] does and returns.
pub open spec fn slot_actions_of(
    data: Seq<u8>,
    slot: u64,
    read_state: bool,
    format: Seq<char>,
) -> (Seq<SlotActionView>, Result<(), ReadErrorView>) {
    match EraRandomReaderView::open(data) {
        Err(e) => (Seq::empty(), Err(ReadErrorView::Open(e))),
        Ok(v) => match whole_block(v, slot) {
            Err(e) => (Seq::empty(), Err(e)),
            Ok(b) => match block_action(slot, b, format) {
                Err(e) => (Seq::empty(), Err(e)),
                Ok(action) => if !read_state {
                    (seq![action], Ok(()))
                } else {
                    match v.state() {
                        Err(e) => (seq![action], Err(ReadErrorView::Read(e))),
                        Ok(state) => (seq![action] + state_actions(state, format), Ok(())),
                    }
                },
            },
        },
    }
}

/// How a block of a slot is shown.
pub fn show_block(slot: u64, b: &Block, format: &str) -> (r: Result<SlotAction, ReadError>)
    ensures
        model::result_view(r) == block_action(slot, b@, format@),
{
    match ReadFormat::parse(format) {
        ReadFormat::Hex => Ok(SlotAction::Summary(make_block_summary(slot, b))),
        ReadFormat::Json => Ok(SlotAction::Json(make_block_summary(slot, b))),
        ReadFormat::Raw => {
            let mut out: Vec<u8> = Vec::new();
            match b {
                Block::Era(b) => {
                    out.extend_from_slice(b.block.as_slice());
                },
                Block::Era1(b) => {
                    out.extend_from_slice(b.header.as_slice());
                    out.extend_from_slice(b.body.as_slice());
                    out.extend_from_slice(b.receipts.as_slice());
                    out.extend_from_slice(b.total_difficulty.0.as_slice());
                },
            }
            assert(out@ =~= block_bytes(b@));
            Ok(SlotAction::Raw(out))
        },
        ReadFormat::Other => Err(ReadError::UnknownFormat(format.to_owned())),
    }
}

/// How a state is shown, if it is shown.
pub fn show_state(state: Option<Vec<u8>>, format: &str) -> (a: Option<SlotAction>)
    ensures
        state_actions(model::option_view(state), format@) == (match a {
            Some(a) => seq![a@],
            None => Seq::empty(),
        }),
{
    let data = match state {
        None => {
            return Some(SlotAction::Note("no beacon state found in file".to_owned()));
        },
        Some(data) => data,
    };
    match ReadFormat::parse(format) {
        ReadFormat::Raw => Some(SlotAction::Raw(data)),
        ReadFormat::Json => None,
        _ => {
            let mut s = "state: ".to_owned();
            s.append(cli::human_size(data.len() as u64).as_str());
            s.append("  0x");
            s.append(sha256_prefix(data.as_slice(), 8).as_str());
            Some(SlotAction::Note(s))
        },
    }
}

/// Read the block of a slot with all its parts.
fn read_whole_block(rr: &mut EraRandomReader<'_>, slot: u64) -> (r: Result<Block, ReadError>)
    ensures
        model::result_view(r) == whole_block(old(rr)@, slot),
        final(rr)@ == old(rr)@,
{
    let b = match rr.read_block_at_slot(slot) {
        Err(e) => {
            return Err(ReadError::Read(e));
        },
        Ok(None) => {
            return Err(ReadError::EmptySlot(slot));
        },
        Ok(Some(b)) => b,
    };
    match b {
        Block::Era(b) => Ok(Block::Era(b)),
        // For ERA1, try to get the full block
        Block::Era1(b) => match rr.read_full_era1_block_at_slot(slot) {
            Err(e) => Err(ReadError::Read(e)),
            Ok(None) => Ok(Block::Era1(b)),
            Ok(Some(full)) => Ok(Block::Era1(full)),
        },
    }
}

/// Read a single block by slot using random access: what is to be done, in
/// order, and why reading stops if it does.
pub fn read_slot(data: &[u8], slot: u64, read_state: bool, format: &str) -> (r: (
    Vec<SlotAction>,
    Result<(), ReadError>,
))
    ensures
        (model::views(r.0@), model::outcome(r.1)) == slot_actions_of(
            data@,
            slot,
            read_state,
            format@,
        ),
{
    let mut actions: Vec<SlotAction> = Vec::new();
    assert(model::views(actions@) =~= Seq::empty());
    let mut rr = match EraRandomReader::new(data) {
        Ok(rr) => rr,
        Err(e) => {
            return (actions, Err(ReadError::Open(e)));
        },
    };
    let b = match read_whole_block(&mut rr, slot) {
        Ok(b) => b,
        Err(e) => {
            return (actions, Err(e));
        },
    };
    let ghost shown;
    match show_block(slot, &b, format) {
        Ok(action) => {
            proof {
                shown = action@;
            }
            actions.push(action);
        },
        Err(e) => {
            return (actions, Err(e));
        },
    }
    assert(model::views(actions@) =~= seq![shown]);
    if read_state {
        let state = match rr.read_state() {
            Ok(state) => state,
            Err(e) => {
                return (actions, Err(ReadError::Read(e)));
            },
        };
        let ghost asked = model::option_view(state);
        match show_state(state, format) {
            Some(a) => {
                let ghost before = actions@;
                actions.push(a);
                proof {
                    model::lemma_views_push(before, a);
                    assert(model::views(actions@) =~= seq![shown] + seq![a@]);
                }
            },
            None => {
                assert(seq![shown] + Seq::empty() =~= seq![shown]);
            },
        }
    }
    (actions, Ok(()))
}

/// How many of the blocks of a file are put out.
pub open spec fn blocks_put_out(opts: StreamOptionsView, blocks: Seq<BlockView>) -> nat {
    match opts.limit {
        Some(limit) => if limit < blocks.len() {
            limit as nat
        } else {
            blocks.len()
        },
        None => blocks.len(),
    }
}

/// What is written of the first `n` blocks, the first of which has number
/// `slot`.
pub open spec fn all_writes(
    opts: StreamOptionsView,
    blocks: Seq<BlockView>,
    slot: u64,
    n: nat,
) -> Seq<RawWriteView> {
    if format_named(opts.format) == ReadFormat::Raw || opts.output_dir is Some {
        Seq::new(
            n,
            |k: int| raw_write(opts, bytes::wrap64(slot + k), blocks[k].primary()),
        )
    } else {
        Seq::empty()
    }
}

/// What is reported of the first `n` blocks, the first of which has number
/// `slot`.
pub open spec fn all_summaries(
    opts: StreamOptionsView,
    blocks: Seq<BlockView>,
    slot: u64,
    n: nat,
) -> Seq<BlockSummaryView> {
    if format_named(opts.format) == ReadFormat::Raw {
        Seq::empty()
    } else {
        Seq::new(n, |k: int| summary_of(bytes::wrap64(slot + k), blocks[k]))
    }
}

proof fn lemma_streamed(
    v: EraBlockReaderView,
    opts: StreamOptionsView,
    slot: u64,
    count: nat,
    writes: Seq<RawWriteView>,
    blocks: Seq<BlockSummaryView>,
    n: nat,
)
    requires
        v.failure() is None,
        format_named(opts.format) != ReadFormat::Other,
        n <= v.blocks().len(),
        match opts.limit {
            Some(limit) => count + n == limit || (count + n < limit && n == v.blocks().len()),
            None => n == v.blocks().len(),
        },
    ensures
        streamed(v, opts, slot, count, writes, blocks) == (StreamView {
            writes: writes + all_writes(opts, v.blocks(), slot, n),
            blocks: blocks + all_summaries(opts, v.blocks(), slot, n),
            end: Ok(()),
        }),
    decreases n,
{
    let all = v.blocks();
    if n == 0 {
        assert(writes + all_writes(opts, all, slot, n) =~= writes);
        assert(blocks + all_summaries(opts, all, slot, n) =~= blocks);
    } else {
        let b = all[0];
        let next = slot.wrapping_add(1);
        let rest = v.after().blocks();
        assert(v.next() == Ok::<Option<BlockView>, ErrorView>(Some(b)));
        assert(all == seq![b] + rest);
        assert(v.after().failure() is None);
        let one_write = block_writes(opts, slot, b.primary());
        let one_summary = block_summaries(opts, slot, b);
        let m = (n - 1) as nat;
        lemma_streamed(
            v.after(),
            opts,
            next,
            count + 1,
            writes + one_write,
            blocks + one_summary,
            m,
        );
        assert(bytes::wrap64(slot + 0) == slot);
        assert forall|k: int| 0 <= k < m implies bytes::wrap64(next + k) == bytes::wrap64(
            slot + (k + 1),
        ) && #[trigger] rest[k] == all[k + 1] by {}
        assert((writes + one_write) + all_writes(opts, rest, next, m) =~= writes + all_writes(
            opts,
            all,
            slot,
            n,
        ));
        assert((blocks + one_summary) + all_summaries(opts, rest, next, m) =~= blocks
            + all_summaries(opts, all, slot, n));
    }
}

/// Streaming a file whose blocks can all be read puts out its blocks in order,
/// up to the limit, if there is one: in summaries, or in bytes if the output is
/// raw. If there is a directory, each gets a file there with its bytes. A state
/// that is asked for comes after them.
pub proof fn stream_puts_out(data: Seq<u8>, opts: StreamOptionsView)
    requires
        EraRandomReaderView::open(data) is Ok,
        EraBlockReaderView::start(data).failure() is None,
        format_named(opts.format) != ReadFormat::Other,
    ensures
        ({
            let rr = EraRandomReaderView::open(data)->Ok_0;
            let blocks = EraBlockReaderView::start(data).blocks();
            let n = blocks_put_out(opts, blocks);
            let writes = all_writes(opts, blocks, first_slot(rr), n);
            let summaries = all_summaries(opts, blocks, first_slot(rr), n);
            match state_asked(rr, opts) {
                Ok(state) => stream_of(data, opts).0 == writes + state_writes(opts, state)
                    && (stream_of(data, opts).1 matches Ok(r) && r.blocks == summaries),
                Err(e) => stream_of(data, opts) == (
                    writes,
                    Err::<ReadResultView, ReadErrorView>(ReadErrorView::Read(e)),
                ),
            }
        }),
{
    let v = EraBlockReaderView::start(data);
    let first = first_slot(EraRandomReaderView::open(data)->Ok_0);
    let n = blocks_put_out(opts, v.blocks());
    lemma_streamed(v, opts, first, 0, Seq::empty(), Seq::empty(), n);
    let writes = all_writes(opts, v.blocks(), first, n);
    let summaries = all_summaries(opts, v.blocks(), first, n);
    assert(Seq::<RawWriteView>::empty() + writes =~= writes);
    assert(Seq::<BlockSummaryView>::empty() + summaries =~= summaries);
}

} // verus!
