//! What the `info` command reports.

use vstd::prelude::*;

use crate::bytes;
use crate::cli;
use crate::error::{Error, ErrorView, IoError, IoErrorView};
use crate::format::e2store;
use crate::format::e2store::{E2StoreReader, Header};
use crate::format::era;
use crate::format::types;
use crate::model;
use crate::read::random::{EraRandomReader, EraRandomReaderView};
use crate::text;

verus! {

/// What there is to know about a file.
#[derive(Debug, Clone)]
pub struct InfoResult {
    pub path: String,
    pub format: String,
    pub file_size: u64,
    pub file_size_human: String,
    pub starting_slot: u64,
    pub slot_range: [u64; 2],
    pub block_count: usize,
    pub state_present: bool,
    pub total_entries: usize,
    pub entries: Vec<(String, usize)>,
}

/// The model of [`InfoResult`].
#[verifier::ext_equal]
pub struct InfoResultView {
    pub path: Seq<char>,
    pub format: Seq<char>,
    pub file_size: u64,
    pub file_size_human: Seq<char>,
    pub starting_slot: u64,
    pub slot_range: [u64; 2],
    pub block_count: usize,
    pub state_present: bool,
    pub total_entries: usize,
    pub entries: Seq<(Seq<char>, usize)>,
}

impl View for InfoResult {
    type V = InfoResultView;

    open spec fn view(&self) -> InfoResultView {
        InfoResultView {
            path: self.path@,
            format: self.format@,
            file_size: self.file_size,
            file_size_human: self.file_size_human@,
            starting_slot: self.starting_slot,
            slot_range: self.slot_range,
            block_count: self.block_count,
            state_present: self.state_present,
            total_entries: self.total_entries,
            entries: cli::count_views(self.entries@),
        }
    }
}

/// The length of the longest of the first `n` names.
pub open spec fn longest_name(entries: Seq<(Seq<char>, usize)>, n: int) -> nat
    decreases n,
{
    if n <= 0 {
        0
    } else {
        let before = longest_name(entries, n - 1);
        if entries[n - 1].0.len() > before {
            entries[n - 1].0.len()
        } else {
            before
        }
    }
}

/// The lines for the first `n` names, with the counts in one column.
pub open spec fn breakdown_lines(
    entries: Seq<(Seq<char>, usize)>,
    width: nat,
    n: int,
) -> Seq<char>
    decreases n,
{
    if n <= 0 {
        Seq::empty()
    } else {
        breakdown_lines(entries, width, n - 1) + "  "@ + text::left_aligned(entries[n - 1].0, width)
            + " "@ + text::dec(entries[n - 1].1 as nat) + "\n"@
    }
}

/// A word for a yes-no answer.
pub open spec fn yes_no(b: bool) -> Seq<char> {
    if b {
        "yes"@
    } else {
        "no"@
    }
}

impl InfoResultView {
    /// The report as text.
    pub open spec fn text(self) -> Seq<char> {
        "Format:            "@ + self.format + "\nFile size:         "@ + self.file_size_human + " ("@
            + text::dec(self.file_size as nat) + ")\nStarting slot:     "@ + text::dec(
            self.starting_slot as nat,
        ) + "\nSlot range:        "@ + text::dec(self.slot_range[0] as nat) + ".."@ + text::dec(
            self.slot_range[1] as nat,
        ) + "\nBlock count:       "@ + text::dec(self.block_count as nat)
            + "\nState present:     "@ + yes_no(self.state_present) + "\nTotal entries:     "@
            + text::dec(self.total_entries as nat) + "\n\nEntry breakdown:\n"@ + breakdown_lines(
            self.entries,
            longest_name(self.entries, self.entries.len() as int),
            self.entries.len() as int,
        )
    }
}

impl InfoResult {
    /// The report as text.
    pub fn to_string(&self) -> (s: String)
        ensures
            s@ == self@.text(),
    {
        let ghost entries = self@.entries;
        let mut s = "Format:            ".to_owned();
        s.append(self.format.as_str());
        s.append("\nFile size:         ");
        s.append(self.file_size_human.as_str());
        s.append(" (");
        text::push_dec(&mut s, self.file_size);
        s.append(")\nStarting slot:     ");
        text::push_dec(&mut s, self.starting_slot);
        s.append("\nSlot range:        ");
        text::push_dec(&mut s, self.slot_range[0]);
        s.append("..");
        text::push_dec(&mut s, self.slot_range[1]);
        s.append("\nBlock count:       ");
        text::push_dec(&mut s, self.block_count as u64);
        s.append("\nState present:     ");
        s.append(if self.state_present { "yes" } else { "no" });
        s.append("\nTotal entries:     ");
        text::push_dec(&mut s, self.total_entries as u64);
        s.append("\n\nEntry breakdown:\n");
        // Find the longest name for alignment
        let mut width: usize = 0;
        let mut i: usize = 0;
        while i < self.entries.len()
            invariant
                i <= self.entries@.len(),
                entries == cli::count_views(self.entries@),
                width == longest_name(entries, i as int),
            decreases self.entries@.len() - i,
        {
            let len: usize = self.entries[i].0.as_str().unicode_len();
            if len > width {
                width = len;
            }
            i = i + 1;
        }
        let ghost head = s@;
        let mut k: usize = 0;
        assert(head + breakdown_lines(entries, width as nat, 0) =~= head);
        while k < self.entries.len()
            invariant
                k <= self.entries@.len(),
                entries == cli::count_views(self.entries@),
                s@ == head + breakdown_lines(entries, width as nat, k as int),
            decreases self.entries@.len() - k,
        {
            s.append("  ");
            text::push_left_aligned(&mut s, self.entries[k].0.as_str(), width);
            s.append(" ");
            text::push_dec(&mut s, self.entries[k].1 as u64);
            s.append("\n");
            assert(s@ =~= head + breakdown_lines(entries, width as nat, k + 1));
            k = k + 1;
        }
        s
    }
}

/// Why there is nothing to report about a file.
#[derive(Debug, Clone)]
pub enum InfoError {
    /// The headers cannot be scanned.
    Scan(IoError),
    /// There are no headers.
    Empty,
    /// The file cannot be opened.
    Open(Error),
}

/// The model of [`InfoError`].
pub enum InfoErrorView {
    Scan(IoErrorView),
    Empty,
    Open(ErrorView),
}

impl View for InfoError {
    type V = InfoErrorView;

    open spec fn view(&self) -> InfoErrorView {
        match *self {
            InfoError::Scan(e) => InfoErrorView::Scan(e@),
            InfoError::Empty => InfoErrorView::Empty,
            InfoError::Open(e) => InfoErrorView::Open(e@),
        }
    }
}

/// Whether one of the headers is that of a beacon state.
pub open spec fn has_state(headers: Seq<Header>) -> bool {
    exists|i: int|
        0 <= i < headers.len() && (#[trigger] headers[i]).typ
            == types::TYPE_COMPRESSED_BEACON_STATE
}

/// The first and the last slot of an index.
pub open spec fn slot_range_of(v: EraRandomReaderView) -> (u64, u64) {
    match v.index {
        None => (0, 0),
        Some((_, idx)) => (
            idx.starting_slot,
            if idx.offsets.len() == 0 {
                idx.starting_slot
            } else {
                bytes::wrap64(idx.starting_slot + idx.offsets.len() - 1)
            },
        ),
    }
}

/// How many slots of an index have a block.
pub open spec fn indexed_blocks(v: EraRandomReaderView) -> nat {
    match v.index {
        None => 0,
        Some((_, idx)) => era::used_slots(idx.offsets),
    }
}

/// The report about a file that has been opened as `v`.
pub open spec fn report(
    path: Seq<char>,
    file_size: u64,
    headers: Seq<Header>,
    v: EraRandomReaderView,
) -> InfoResultView {
    let range = slot_range_of(v);
    InfoResultView {
        path,
        format: v.format->Some_0.text(),
        file_size,
        file_size_human: cli::size_text(file_size),
        starting_slot: range.0,
        slot_range: [range.0, range.1],
        block_count: indexed_blocks(v) as usize,
        state_present: has_state(headers.skip(1)),
        total_entries: (headers.len() - 1) as usize,
        entries: cli::breakdown(headers.skip(1), 10),
    }
}

/// What [`file_info`] returns.
pub open spec fn info_of(path: Seq<char>, file_size: u64, data: Seq<u8>) -> Result<
    InfoResultView,
    InfoErrorView,
> {
    let headers = e2store::stream_headers(data);
    match e2store::header_failure(data) {
        Some(e) => Err(InfoErrorView::Scan(e)),
        None => if headers.len() == 0 {
            Err(InfoErrorView::Empty)
        } else {
            match EraRandomReaderView::open(data) {
                Err(e) => Err(InfoErrorView::Open(e)),
                Ok(v) => Ok(report(path, file_size, headers, v)),
            }
        },
    }
}

/// Whether the file tells a format, if it can be opened: whether it has more
/// than version entries.
pub open spec fn tells_format(data: Seq<u8>) -> bool {
    EraRandomReaderView::open(data) matches Ok(v) ==> v.format is Some
}

/// See [`tells_format`].
pub fn has_format(data: &[u8]) -> (r: bool)
    ensures
        r == tells_format(data@),
{
    match EraRandomReader::new(data) {
        Ok(rr) => rr.format().is_some(),
        Err(_) => true,
    }
}

fn any_state(headers: &[Header]) -> (r: bool)
    ensures
        r == has_state(headers@),
{
    let mut i: usize = 0;
    while i < headers.len()
        invariant
            i <= headers@.len(),
            forall|k: int|
                0 <= k < i ==> (#[trigger] headers@[k]).typ != types::TYPE_COMPRESSED_BEACON_STATE,
        decreases headers@.len() - i,
    {
        if types::same_type(headers[i].typ, types::TYPE_COMPRESSED_BEACON_STATE) {
            return true;
        }
        i = i + 1;
    }
    false
}

/// Report about a file that tells a format.
pub fn file_info(path: String, file_size: u64, data: &[u8]) -> (r: Result<InfoResult, InfoError>)
    requires
        tells_format(data@),
    ensures
        model::result_view(r) == info_of(path@, file_size, data@),
{
    let mut reader = E2StoreReader::new(data);
    let headers = match reader.scan_all_headers() {
        Ok(headers) => headers,
        Err(e) => {
            return Err(InfoError::Scan(e));
        },
    };
    if headers.len() == 0 {
        return Err(InfoError::Empty);
    }
    let rr = match EraRandomReader::new(data) {
        Ok(rr) => rr,
        Err(e) => {
            return Err(InfoError::Open(e));
        },
    };
    let data_headers: &[Header] = vstd::slice::slice_subrange(headers.as_slice(), 1, headers.len());
    assert(data_headers@ =~= headers@.skip(1));
    let entries = cli::count_entry_types(data_headers);
    let (start, end, block_count): (u64, u64, usize) = match rr.block_index() {
        None => (0, 0, 0),
        Some(idx) => {
            let len: usize = idx.offsets.len();
            let end: u64 = if len == 0 {
                idx.starting_slot
            } else {
                bytes::wrapping_sum(idx.starting_slot, (len - 1) as u64)
            };
            (idx.starting_slot, end, era::count_used(&idx.offsets) as usize)
        },
    };
    let format = match rr.format() {
        Some(f) => f.to_string(),
        None => String::new(),
    };
    let result = InfoResult {
        path,
        format,
        file_size,
        file_size_human: cli::human_size(file_size),
        starting_slot: start,
        slot_range: [start, end],
        block_count,
        state_present: any_state(data_headers),
        total_entries: headers.len() - 1,
        entries,
    };
    proof {
        assert(result@.slot_range =~= report(path@, file_size, headers@, rr@).slot_range);
        assert(result@ =~= report(path@, file_size, headers@, rr@));
    }
    Ok(result)
}

/// What there is to know about a directory.
#[derive(Debug, Clone)]
pub struct DirInfoResult {
    pub path: String,
    pub file_count: usize,
    pub total_size: u64,
    pub total_size_human: String,
    pub total_blocks: usize,
    pub slot_range: [u64; 2],
    pub states_present: usize,
    pub files: Vec<InfoResult>,
}

/// The model of [`DirInfoResult`].
#[verifier::ext_equal]
pub struct DirInfoResultView {
    pub path: Seq<char>,
    pub file_count: usize,
    pub total_size: u64,
    pub total_size_human: Seq<char>,
    pub total_blocks: usize,
    pub slot_range: [u64; 2],
    pub states_present: usize,
    pub files: Seq<InfoResultView>,
}

impl View for DirInfoResult {
    type V = DirInfoResultView;

    open spec fn view(&self) -> DirInfoResultView {
        DirInfoResultView {
            path: self.path@,
            file_count: self.file_count,
            total_size: self.total_size,
            total_size_human: self.total_size_human@,
            total_blocks: self.total_blocks,
            slot_range: self.slot_range,
            states_present: self.states_present,
            files: model::views(self.files@),
        }
    }
}

impl DirInfoResultView {
    /// The report as text.
    pub open spec fn text(self) -> Seq<char> {
        "Directory:  "@ + self.path + "\nFiles:      "@ + text::dec(self.file_count as nat)
            + "\nTotal size: "@ + self.total_size_human + " ("@ + text::dec(self.total_size as nat)
            + ")\nBlocks:     "@ + text::dec(self.total_blocks as nat) + "\nSlot range: "@
            + text::dec(self.slot_range[0] as nat) + ".."@ + text::dec(self.slot_range[1] as nat)
            + "\nStates:     "@ + text::dec(self.states_present as nat) + "\n"@
    }
}

impl DirInfoResult {
    /// The report as text.
    pub fn to_string(&self) -> (s: String)
        ensures
            s@ == self@.text(),
    {
        let mut s = "Directory:  ".to_owned();
        s.append(self.path.as_str());
        s.append("\nFiles:      ");
        text::push_dec(&mut s, self.file_count as u64);
        s.append("\nTotal size: ");
        s.append(self.total_size_human.as_str());
        s.append(" (");
        text::push_dec(&mut s, self.total_size);
        s.append(")\nBlocks:     ");
        text::push_dec(&mut s, self.total_blocks as u64);
        s.append("\nSlot range: ");
        text::push_dec(&mut s, self.slot_range[0]);
        s.append("..");
        text::push_dec(&mut s, self.slot_range[1]);
        s.append("\nStates:     ");
        text::push_dec(&mut s, self.states_present as u64);
        s.append("\n");
        s
    }
}

/// Adds up the files of a directory.
pub struct DirInfo {
    total_size: u64,
    total_blocks: usize,
    min_slot: u64,
    max_slot: u64,
    states_present: usize,
    files: Vec<InfoResult>,
}

/// The model of [`DirInfo`].
#[verifier::ext_equal]
pub struct DirInfoView {
    pub total_size: u64,
    pub total_blocks: usize,
    pub min_slot: u64,
    pub max_slot: u64,
    pub states_present: usize,
    pub files: Seq<InfoResultView>,
}

impl View for DirInfo {
    type V = DirInfoView;

    closed spec fn view(&self) -> DirInfoView {
        DirInfoView {
            total_size: self.total_size,
            total_blocks: self.total_blocks,
            min_slot: self.min_slot,
            max_slot: self.max_slot,
            states_present: self.states_present,
            files: model::views(self.files@),
        }
    }
}

impl DirInfoView {
    /// No file has been added.
    pub open spec fn start() -> DirInfoView {
        DirInfoView {
            total_size: 0,
            total_blocks: 0,
            min_slot: u64::MAX,
            max_slot: 0,
            states_present: 0,
            files: Seq::empty(),
        }
    }

    /// The sums after a file of this size of which `info` is the report, if
    /// there is one. A file without a report counts by its size alone.
    pub open spec fn with(self, file_size: u64, info: Option<InfoResultView>) -> DirInfoView {
        let total_size = bytes::wrap64(self.total_size + file_size);
        match info {
            None => DirInfoView { total_size, ..self },
            Some(info) => DirInfoView {
                total_size,
                total_blocks: self.total_blocks.wrapping_add(info.block_count),
                min_slot: if info.slot_range[0] < self.min_slot {
                    info.slot_range[0]
                } else {
                    self.min_slot
                },
                max_slot: if info.slot_range[1] > self.max_slot {
                    info.slot_range[1]
                } else {
                    self.max_slot
                },
                states_present: self.states_present.wrapping_add(
                    if info.state_present {
                        1
                    } else {
                        0
                    },
                ),
                files: self.files.push(info),
            },
        }
    }

    /// The report about the directory.
    pub open spec fn report(self, path: Seq<char>) -> DirInfoResultView {
        DirInfoResultView {
            path,
            file_count: self.files.len() as usize,
            total_size: self.total_size,
            total_size_human: cli::size_text(self.total_size),
            total_blocks: self.total_blocks,
            slot_range: [
                if self.min_slot == u64::MAX {
                    0
                } else {
                    self.min_slot
                },
                self.max_slot,
            ],
            states_present: self.states_present,
            files: self.files,
        }
    }
}

/// The report about a file of a directory, if there is one: a file that cannot
/// be read is passed over.
pub open spec fn dir_file_info(name: Seq<char>, file_size: u64, data: Option<Seq<u8>>) -> Option<
    InfoResultView,
> {
    match data {
        None => None,
        Some(data) => match info_of(name, file_size, data) {
            Ok(info) => Some(info),
            Err(_) => None,
        },
    }
}

/// The content of a file that could be read.
pub open spec fn content_view(data: Option<&[u8]>) -> Option<Seq<u8>> {
    match data {
        Some(data) => Some(data@),
        None => None,
    }
}

impl DirInfo {
    pub fn new() -> (d: Self)
        ensures
            d@ == DirInfoView::start(),
    {
        let d = DirInfo {
            total_size: 0,
            total_blocks: 0,
            min_slot: u64::MAX,
            max_slot: 0,
            states_present: 0,
            files: Vec::new(),
        };
        assert(d@ =~= DirInfoView::start());
        d
    }

    /// Add a file, whose content is not there if it could not be read.
    pub fn add_file(&mut self, name: String, file_size: u64, data: Option<&[u8]>)
        requires
            data matches Some(data) ==> tells_format(data@),
        ensures
            final(self)@ == old(self)@.with(
                file_size,
                dir_file_info(name@, file_size, content_view(data)),
            ),
    {
        self.total_size = bytes::wrapping_sum(self.total_size, file_size);
        let info = match data {
            None => {
                return;
            },
            Some(data) => match file_info(name, file_size, data) {
                Ok(info) => info,
                Err(_) => {
                    return;
                },
            },
        };
        self.total_blocks = self.total_blocks.wrapping_add(info.block_count);
        if info.slot_range[0] < self.min_slot {
            self.min_slot = info.slot_range[0];
        }
        if info.slot_range[1] > self.max_slot {
            self.max_slot = info.slot_range[1];
        }
        self.states_present = self.states_present.wrapping_add(
            if info.state_present {
                1
            } else {
                0
            },
        );
        let ghost before = self.files@;
        self.files.push(info);
        proof {
            model::lemma_views_push(before, info);
        }
    }

    /// The report about the directory.
    pub fn finish(self, path: String) -> (r: DirInfoResult)
        ensures
            r@ == self@.report(path@),
    {
        let low: u64 = if self.min_slot == u64::MAX {
            0
        } else {
            self.min_slot
        };
        let r = DirInfoResult {
            path,
            file_count: self.files.len(),
            total_size: self.total_size,
            total_size_human: cli::human_size(self.total_size),
            total_blocks: self.total_blocks,
            slot_range: [low, self.max_slot],
            states_present: self.states_present,
            files: self.files,
        };
        assert(r@.slot_range =~= self@.report(path@).slot_range);
        r
    }
}

} // verus!
