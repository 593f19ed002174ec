//! The pass over the entries of a file.

use vstd::prelude::*;

use crate::format::e2store;
use crate::format::e2store::{Entry, EntryView};
use crate::format::era;
use crate::format::era::{SlotIndex, SlotIndexView};
use crate::format::types;
use crate::model;
use crate::read::typed::EraFormat;
use crate::text;
use crate::verify;

verus! {

/// An ERA1 block group being assembled during verification.
///
/// ERA1 blocks span consecutive entries: CompressedHeader, BlockBody,
/// Receipts (optional), TotalDifficulty. A new CompressedHeader signals that
/// the previous group is complete.
#[derive(Clone, Copy, Debug)]
pub struct Era1Group {
    /// Index of the header entry (for error messages).
    pub header_idx: usize,
    pub has_body: bool,
    pub has_receipts: bool,
    pub has_td: bool,
}

impl Era1Group {
    /// A group of which only the header has been seen.
    pub open spec fn started(header_idx: usize) -> Era1Group {
        Era1Group { header_idx, has_body: false, has_receipts: false, has_td: false }
    }

    /// Required parts are header (implicit), body and td.
    pub open spec fn complete(self) -> bool {
        self.has_body && self.has_td
    }

    /// The names of the missing parts.
    pub open spec fn missing(self) -> Seq<char> {
        if !self.has_body && !self.has_td {
            "BlockBody, TotalDifficulty"@
        } else if !self.has_body {
            "BlockBody"@
        } else if !self.has_td {
            "TotalDifficulty"@
        } else {
            Seq::empty()
        }
    }

    pub fn new(header_idx: usize) -> (g: Self)
        ensures
            g == Era1Group::started(header_idx),
    {
        Era1Group { header_idx, has_body: false, has_receipts: false, has_td: false }
    }

    /// Required parts are header (implicit), body and td.
    pub fn is_complete(&self) -> (r: bool)
        ensures
            r == self.complete(),
    {
        self.has_body && self.has_td
    }

    /// The names of the missing parts.
    pub fn missing_parts(&self) -> (s: String)
        ensures
            s@ == self.missing(),
    {
        if !self.has_body && !self.has_td {
            "BlockBody, TotalDifficulty".to_owned()
        } else if !self.has_body {
            "BlockBody".to_owned()
        } else if !self.has_td {
            "TotalDifficulty".to_owned()
        } else {
            proof {
                reveal_strlit("");
            }
            let s = "".to_owned();
            assert(s@ =~= Seq::empty());
            s
        }
    }
}

/// What the pass has seen so far.
pub struct Scan {
    pub block_count: usize,
    /// Where the last state entry starts.
    pub state_pos: Option<u64>,
    pub slot_index_seen: bool,
    /// The last block index that could be decoded.
    pub block_index: Option<SlotIndex>,
    /// Where the last block index starts, or 0.
    pub block_index_pos: u64,
    /// The last state index that could be decoded.
    pub state_index: Option<SlotIndex>,
    /// Where the last state index starts, or 0.
    pub state_index_pos: u64,
    pub format: Option<EraFormat>,
    pub group: Option<Era1Group>,
    pub errors: Vec<String>,
    pub warnings: Vec<String>,
}

/// The model of [`Scan`].
#[verifier::ext_equal]
pub struct ScanView {
    pub block_count: usize,
    pub state_pos: Option<u64>,
    pub slot_index_seen: bool,
    pub block_index: Option<SlotIndexView>,
    pub block_index_pos: u64,
    pub state_index: Option<SlotIndexView>,
    pub state_index_pos: u64,
    pub format: Option<EraFormat>,
    pub group: Option<Era1Group>,
    pub errors: Seq<Seq<char>>,
    pub warnings: Seq<Seq<char>>,
}

impl View for Scan {
    type V = ScanView;

    open spec fn view(&self) -> ScanView {
        ScanView {
            block_count: self.block_count,
            state_pos: self.state_pos,
            slot_index_seen: self.slot_index_seen,
            block_index: model::option_view(self.block_index),
            block_index_pos: self.block_index_pos,
            state_index: model::option_view(self.state_index),
            state_index_pos: self.state_index_pos,
            format: self.format,
            group: self.group,
            errors: model::views(self.errors@),
            warnings: model::views(self.warnings@),
        }
    }
}

/// A message about the entry at `i`.
pub open spec fn at_entry(i: int, what: Seq<char>) -> Seq<char> {
    "entry "@ + text::dec(i as nat) + ": "@ + what
}

/// The error for compressed data that does not decompress.
pub open spec fn failed(i: int, what: Seq<char>, failure: Option<Seq<char>>) -> Seq<Seq<char>> {
    match failure {
        Some(e) => seq![at_entry(i, what + e)],
        None => Seq::empty(),
    }
}

/// The error for an index that does not decode.
pub open spec fn undecodable(i: int, what: Seq<char>, data: Seq<u8>) -> Seq<Seq<char>> {
    match era::slot_index_of(data) {
        Err(e) => seq![at_entry(i, what + e)],
        Ok(_) => Seq::empty(),
    }
}

/// The error for a value that is not 32 bytes long.
pub open spec fn wrong_size(i: int, what: Seq<char>, len: nat) -> Seq<Seq<char>> {
    if len != 32 {
        seq![at_entry(i, what + " must be 32 bytes, got "@ + text::dec(len))]
    } else {
        Seq::empty()
    }
}

/// The error for a group that is not complete when the entry at `i` starts
/// another.
pub open spec fn incomplete(i: int, group: Option<Era1Group>) -> Seq<Seq<char>> {
    match group {
        Some(g) => if !g.complete() {
            seq![
                at_entry(
                    i,
                    "incomplete ERA1 block starting at entry "@ + text::dec(g.header_idx as nat)
                        + " (missing: "@ + g.missing() + ")"@,
                ),
            ]
        } else {
            Seq::empty()
        },
        None => Seq::empty(),
    }
}

/// The error for a group that is not complete at the end of the file.
pub open spec fn final_group_errors(group: Option<Era1Group>) -> Seq<Seq<char>> {
    match group {
        Some(g) => if !g.complete() {
            seq![
                "incomplete final ERA1 block starting at entry "@ + text::dec(g.header_idx as nat)
                    + " (missing: "@ + g.missing() + ")"@,
            ]
        } else {
            Seq::empty()
        },
        None => Seq::empty(),
    }
}

/// The warning for a part of an ERA1 block that no header precedes.
pub open spec fn orphan(i: int, what: Seq<char>, group: Option<Era1Group>) -> Seq<Seq<char>> {
    match group {
        Some(_) => Seq::empty(),
        None => seq![at_entry(i, what + " without preceding header"@)],
    }
}

/// The index that counts after one with this data: the last that decodes.
pub open spec fn latest(data: Seq<u8>, before: Option<SlotIndexView>) -> Option<SlotIndexView> {
    match era::slot_index_of(data) {
        Ok(idx) => Some(idx),
        Err(_) => before,
    }
}

impl ScanView {
    /// Nothing has been seen.
    pub open spec fn start() -> ScanView {
        ScanView {
            block_count: 0,
            state_pos: None,
            slot_index_seen: false,
            block_index: None,
            block_index_pos: 0,
            state_index: None,
            state_index_pos: 0,
            format: None,
            group: None,
            errors: Seq::empty(),
            warnings: Seq::empty(),
        }
    }

    /// The format: that of the first entry that tells one.
    pub open spec fn format_with(self, f: EraFormat) -> Option<EraFormat> {
        match self.format {
            Some(g) => Some(g),
            None => Some(f),
        }
    }

    /// The pass after the entry `e`, which is the one at `i` and starts at byte
    /// `pos`. `failure` tells why its data does not decompress.
    pub open spec fn step(
        self,
        i: int,
        pos: u64,
        e: EntryView,
        failure: Option<Seq<char>>,
    ) -> ScanView {
        let typ = e.header.typ;
        if typ == types::TYPE_COMPRESSED_SIGNED_BEACON_BLOCK {
            ScanView {
                format: self.format_with(EraFormat::Era),
                block_count: (self.block_count + 1) as usize,
                errors: self.errors + failed(i, "beacon block decompression failed: "@, failure),
                ..self
            }
        } else if typ == types::TYPE_COMPRESSED_BEACON_STATE {
            ScanView {
                state_pos: Some(pos),
                errors: self.errors + failed(i, "beacon state decompression failed: "@, failure),
                ..self
            }
        } else if typ == types::TYPE_BLOCK_INDEX || (typ == types::TYPE_SLOT_INDEX
            && !self.slot_index_seen) {
            ScanView {
                slot_index_seen: self.slot_index_seen || typ == types::TYPE_SLOT_INDEX,
                block_index: latest(e.data, self.block_index),
                block_index_pos: pos,
                errors: self.errors + undecodable(i, "invalid block index: "@, e.data),
                ..self
            }
        } else if typ == types::TYPE_STATE_INDEX || typ == types::TYPE_SLOT_INDEX {
            ScanView {
                state_index: latest(e.data, self.state_index),
                state_index_pos: pos,
                errors: self.errors + undecodable(i, "invalid state index: "@, e.data),
                ..self
            }
        } else if typ == types::TYPE_COMPRESSED_HEADER {
            ScanView {
                format: self.format_with(EraFormat::Era1),
                block_count: (self.block_count + 1) as usize,
                group: Some(Era1Group::started(i as usize)),
                errors: self.errors + incomplete(i, self.group) + failed(
                    i,
                    "header decompression failed: "@,
                    failure,
                ),
                ..self
            }
        } else if typ == types::TYPE_COMPRESSED_BODY {
            ScanView {
                format: self.format_with(EraFormat::Era1),
                group: match self.group {
                    Some(g) => Some(Era1Group { has_body: true, ..g }),
                    None => None,
                },
                warnings: self.warnings + orphan(i, "BlockBody"@, self.group),
                ..self
            }
        } else if typ == types::TYPE_COMPRESSED_RECEIPTS {
            ScanView {
                format: self.format_with(EraFormat::Era1),
                group: match self.group {
                    Some(g) => Some(Era1Group { has_receipts: true, ..g }),
                    None => None,
                },
                warnings: self.warnings + orphan(i, "Receipts"@, self.group),
                ..self
            }
        } else if typ == types::TYPE_TOTAL_DIFFICULTY {
            ScanView {
                format: self.format_with(EraFormat::Era1),
                group: match self.group {
                    Some(g) => Some(Era1Group { has_td: true, ..g }),
                    None => None,
                },
                errors: self.errors + wrong_size(i, "TotalDifficulty"@, e.data.len()),
                warnings: self.warnings + orphan(i, "TotalDifficulty"@, self.group),
                ..self
            }
        } else if typ == types::TYPE_ACCUMULATOR {
            ScanView {
                errors: self.errors + wrong_size(i, "BlockAccumulator"@, e.data.len()),
                ..self
            }
        } else {
            ScanView {
                warnings: self.warnings + seq![
                    at_entry(
                        i,
                        "unknown entry type "@ + text::hex_byte(typ[0]) + text::hex_byte(typ[1]),
                    ),
                ],
                ..self
            }
        }
    }
}

/// The pass after the first `n` entries, of which the version counts for
/// nothing.
pub open spec fn scanned(
    entries: Seq<EntryView>,
    failures: Seq<Option<Seq<char>>>,
    n: int,
) -> ScanView
    decreases n,
{
    if n <= 1 {
        ScanView::start()
    } else {
        scanned(entries, failures, n - 1).step(
            n - 1,
            e2store::entry_pos(entries, n - 1) as u64,
            entries[n - 1],
            failures[n - 1],
        )
    }
}

/// An entry starts where the one before it ends.
pub proof fn lemma_entry_pos_step(entries: Seq<EntryView>, i: int)
    requires
        0 <= i < entries.len(),
    ensures
        e2store::entry_pos(entries, i + 1) == e2store::entry_pos(entries, i) + 8
            + entries[i].data.len(),
        e2store::entry_pos(entries, i + 1) <= e2store::file_bytes(entries).len(),
{
    assert(entries.take(i + 1).drop_last() =~= entries.take(i));
    e2store::lemma_header_len(entries[i].header);
    assert(entries =~= entries.take(i + 1) + entries.skip(i + 1));
    e2store::lemma_file_concat(entries.take(i + 1), entries.skip(i + 1));
}

/// [`verify::entry_at`] gives one of the first `n` entries.
pub proof fn lemma_entry_at_range(entries: Seq<EntryView>, n: int, at: u64)
    ensures
        verify::entry_at(entries, n, at) matches Some(k) ==> 1 <= k < n && e2store::entry_pos(
            entries,
            k,
        ) == at,
    decreases n,
{
    if n > 1 {
        lemma_entry_at_range(entries, n - 1, at);
    }
}

/// Append a text to a list.
pub fn push_text(list: &mut Vec<String>, s: String)
    ensures
        model::views(final(list)@) == model::views(old(list)@) + seq![s@],
{
    list.push(s);
    assert(model::views(list@) =~= model::views(old(list)@) + seq![s@]);
}

/// A message about the entry at `i`.
fn entry_message(i: usize, what: &str) -> (s: String)
    ensures
        s@ == at_entry(i as int, what@),
{
    let mut s = "entry ".to_owned();
    text::push_dec(&mut s, i as u64);
    s.append(": ");
    s.append(what);
    s
}

fn push_failed(errors: &mut Vec<String>, i: usize, what: &str, failure: &Option<String>)
    ensures
        model::views(final(errors)@) == model::views(old(errors)@) + failed(
            i as int,
            what@,
            model::option_view(*failure),
        ),
{
    match failure {
        Some(e) => {
            let s = what.to_owned().concat(e.as_str());
            push_text(errors, entry_message(i, s.as_str()));
        },
        None => {
            assert(model::views(errors@) + Seq::empty() =~= model::views(errors@));
        },
    }
}

fn push_wrong_size(errors: &mut Vec<String>, i: usize, what: &str, len: usize)
    ensures
        model::views(final(errors)@) == model::views(old(errors)@) + wrong_size(
            i as int,
            what@,
            len as nat,
        ),
{
    if len != 32 {
        let mut s = what.to_owned().concat(" must be 32 bytes, got ");
        text::push_dec(&mut s, len as u64);
        push_text(errors, entry_message(i, s.as_str()));
    } else {
        assert(model::views(errors@) + Seq::empty() =~= model::views(errors@));
    }
}

fn push_orphan(warnings: &mut Vec<String>, i: usize, what: &str, group: &Option<Era1Group>)
    ensures
        model::views(final(warnings)@) == model::views(old(warnings)@) + orphan(
            i as int,
            what@,
            *group,
        ),
{
    match group {
        Some(_) => {
            assert(model::views(warnings@) + Seq::empty() =~= model::views(warnings@));
        },
        None => {
            let s = what.to_owned().concat(" without preceding header");
            push_text(warnings, entry_message(i, s.as_str()));
        },
    }
}

fn push_incomplete(errors: &mut Vec<String>, i: usize, group: &Option<Era1Group>)
    ensures
        model::views(final(errors)@) == model::views(old(errors)@) + incomplete(i as int, *group),
{
    if let Some(g) = group {
        if !g.is_complete() {
            let mut s = "incomplete ERA1 block starting at entry ".to_owned();
            text::push_dec(&mut s, g.header_idx as u64);
            s.append(" (missing: ");
            s.append(g.missing_parts().as_str());
            s.append(")");
            push_text(errors, entry_message(i, s.as_str()));
            return;
        }
    }
    assert(model::views(errors@) + Seq::empty() =~= model::views(errors@));
}

/// Append the error for a group that is not complete at the end of the file.
pub fn push_final_group(errors: &mut Vec<String>, group: &Option<Era1Group>)
    ensures
        model::views(final(errors)@) == model::views(old(errors)@) + final_group_errors(*group),
{
    if let Some(g) = group {
        if !g.is_complete() {
            let mut s = "incomplete final ERA1 block starting at entry ".to_owned();
            text::push_dec(&mut s, g.header_idx as u64);
            s.append(" (missing: ");
            s.append(g.missing_parts().as_str());
            s.append(")");
            push_text(errors, s);
            return;
        }
    }
    assert(model::views(errors@) + Seq::empty() =~= model::views(errors@));
}

fn push_index(
    errors: &mut Vec<String>,
    i: usize,
    what: &str,
    data: &Vec<u8>,
    latest_index: &mut Option<SlotIndex>,
)
    ensures
        model::views(final(errors)@) == model::views(old(errors)@) + undecodable(
            i as int,
            what@,
            data@,
        ),
        model::option_view(*final(latest_index)) == latest(
            data@,
            model::option_view(*old(latest_index)),
        ),
{
    match SlotIndex::decode(data.as_slice()) {
        Ok(idx) => {
            *latest_index = Some(idx);
            assert(model::views(errors@) + Seq::empty() =~= model::views(errors@));
        },
        Err(e) => {
            let s = what.to_owned().concat(e.as_str());
            push_text(errors, entry_message(i, s.as_str()));
        },
    }
}

impl Scan {
    pub fn new() -> (s: Self)
        ensures
            s@ == ScanView::start(),
    {
        let s = Scan {
            block_count: 0,
            state_pos: None,
            slot_index_seen: false,
            block_index: None,
            block_index_pos: 0,
            state_index: None,
            state_index_pos: 0,
            format: None,
            group: None,
            errors: Vec::new(),
            warnings: Vec::new(),
        };
        assert(s@ =~= ScanView::start());
        s
    }

    fn note_format(&mut self, f: EraFormat)
        ensures
            final(self)@ == (ScanView { format: old(self)@.format_with(f), ..old(self)@ }),
    {
        if self.format.is_none() {
            self.format = Some(f);
        }
    }

    /// Take in the entry at `i`, which starts at byte `pos`. `failure` tells
    /// why its data does not decompress.
    pub fn take_entry(&mut self, i: usize, pos: u64, entry: &Entry, failure: &Option<String>)
        requires
            old(self)@.block_count < usize::MAX,
        ensures
            final(self)@ == old(self)@.step(i as int, pos, entry@, model::option_view(*failure)),
    {
        let typ: [u8; 2] = entry.header.typ;
        if types::same_type(typ, types::TYPE_COMPRESSED_SIGNED_BEACON_BLOCK) {
            self.note_format(EraFormat::Era);
            self.block_count = self.block_count + 1;
            push_failed(&mut self.errors, i, "beacon block decompression failed: ", failure);
        } else if types::same_type(typ, types::TYPE_COMPRESSED_BEACON_STATE) {
            self.state_pos = Some(pos);
            push_failed(&mut self.errors, i, "beacon state decompression failed: ", failure);
        } else if types::same_type(typ, types::TYPE_BLOCK_INDEX) || (types::same_type(
            typ,
            types::TYPE_SLOT_INDEX,
        ) && !self.slot_index_seen) {
            if types::same_type(typ, types::TYPE_SLOT_INDEX) {
                self.slot_index_seen = true;
            }
            self.block_index_pos = pos;
            push_index(
                &mut self.errors,
                i,
                "invalid block index: ",
                &entry.data,
                &mut self.block_index,
            );
        } else if types::same_type(typ, types::TYPE_STATE_INDEX) || types::same_type(
            typ,
            types::TYPE_SLOT_INDEX,
        ) {
            self.state_index_pos = pos;
            push_index(
                &mut self.errors,
                i,
                "invalid state index: ",
                &entry.data,
                &mut self.state_index,
            );
        } else if types::same_type(typ, types::TYPE_COMPRESSED_HEADER) {
            self.note_format(EraFormat::Era1);
            // Flush the previous group
            push_incomplete(&mut self.errors, i, &self.group);
            self.block_count = self.block_count + 1;
            self.group = Some(Era1Group::new(i));
            push_failed(&mut self.errors, i, "header decompression failed: ", failure);
        } else if types::same_type(typ, types::TYPE_COMPRESSED_BODY) {
            self.note_format(EraFormat::Era1);
            push_orphan(&mut self.warnings, i, "BlockBody", &self.group);
            if let Some(g) = self.group {
                self.group = Some(Era1Group { has_body: true, ..g });
            }
        } else if types::same_type(typ, types::TYPE_COMPRESSED_RECEIPTS) {
            self.note_format(EraFormat::Era1);
            push_orphan(&mut self.warnings, i, "Receipts", &self.group);
            if let Some(g) = self.group {
                self.group = Some(Era1Group { has_receipts: true, ..g });
            }
        } else if types::same_type(typ, types::TYPE_TOTAL_DIFFICULTY) {
            self.note_format(EraFormat::Era1);
            push_wrong_size(&mut self.errors, i, "TotalDifficulty", entry.data.len());
            push_orphan(&mut self.warnings, i, "TotalDifficulty", &self.group);
            if let Some(g) = self.group {
                self.group = Some(Era1Group { has_td: true, ..g });
            }
        } else if types::same_type(typ, types::TYPE_ACCUMULATOR) {
            push_wrong_size(&mut self.errors, i, "BlockAccumulator", entry.data.len());
        } else {
            let mut s = "unknown entry type ".to_owned();
            text::push_hex_byte(&mut s, typ[0]);
            text::push_hex_byte(&mut s, typ[1]);
            push_text(&mut self.warnings, entry_message(i, s.as_str()));
        }
    }
}

} // verus!
