//! What the `verify` command reports.

use vstd::prelude::*;

use crate::bytes;
use crate::cli;
use crate::model;
use crate::text;
use crate::verify;
use crate::verify::{VerificationResult, VerificationResultView};

verus! {

/// The outcome for a file.
#[derive(Debug, Clone)]
pub struct VerifyResult {
    pub valid: bool,
    pub block_count: usize,
    pub state_present: bool,
    pub errors: Vec<String>,
    pub warnings: Vec<String>,
    pub manifest_match: Option<bool>,
}

/// The model of [`VerifyResult`].
#[verifier::ext_equal]
pub struct VerifyResultView {
    pub valid: bool,
    pub block_count: usize,
    pub state_present: bool,
    pub errors: Seq<Seq<char>>,
    pub warnings: Seq<Seq<char>>,
    pub manifest_match: Option<bool>,
}

impl View for VerifyResult {
    type V = VerifyResultView;

    open spec fn view(&self) -> VerifyResultView {
        VerifyResultView {
            valid: self.valid,
            block_count: self.block_count,
            state_present: self.state_present,
            errors: model::views(self.errors@),
            warnings: model::views(self.warnings@),
            manifest_match: self.manifest_match,
        }
    }
}

/// The first `n` items of a list, one per line.
pub open spec fn item_lines(items: Seq<Seq<char>>, n: int) -> Seq<char>
    decreases n,
{
    if n <= 0 {
        Seq::empty()
    } else {
        item_lines(items, n - 1) + "  - "@ + items[n - 1] + "\n"@
    }
}

/// A list under a title, if there is anything in it.
pub open spec fn section(title: Seq<char>, items: Seq<Seq<char>>) -> Seq<char> {
    if items.len() == 0 {
        Seq::empty()
    } else {
        title + item_lines(items, items.len() as int)
    }
}

/// The line on the manifest, if there is one.
pub open spec fn manifest_text(matched: Option<bool>) -> Seq<char> {
    match matched {
        None => Seq::empty(),
        Some(true) => "  manifest: matches\n"@,
        Some(false) => "  manifest: MISMATCH\n"@,
    }
}

impl VerifyResultView {
    /// The report as text.
    pub open spec fn text(self) -> Seq<char> {
        (if self.valid {
            "✓ valid\n  blocks:   "@
        } else {
            "✗ invalid\n  blocks:   "@
        }) + text::dec(self.block_count as nat) + (if self.state_present {
            "\n  state:    present\n"@
        } else {
            "\n  state:    absent\n"@
        }) + manifest_text(self.manifest_match) + section("\nErrors:\n"@, self.errors) + section(
            "\nWarnings:\n"@,
            self.warnings,
        )
    }
}

/// Append the items of a list, one per line.
fn push_items(s: &mut String, items: &Vec<String>)
    ensures
        final(s)@ == old(s)@ + item_lines(model::views(items@), items@.len() as int),
{
    let ghost all = model::views(items@);
    let ghost head = s@;
    let mut i: usize = 0;
    assert(head + item_lines(all, 0) =~= head);
    while i < items.len()
        invariant
            i <= items@.len(),
            all == model::views(items@),
            s@ == head + item_lines(all, i as int),
        decreases items@.len() - i,
    {
        s.append("  - ");
        s.append(items[i].as_str());
        s.append("\n");
        assert(s@ =~= head + item_lines(all, i + 1));
        i = i + 1;
    }
}

fn push_section(s: &mut String, title: &str, items: &Vec<String>)
    ensures
        final(s)@ == old(s)@ + section(title@, model::views(items@)),
{
    if items.len() == 0 {
        assert(s@ + Seq::empty() =~= s@);
    } else {
        s.append(title);
        push_items(s, items);
        assert(s@ =~= old(s)@ + section(title@, model::views(items@)));
    }
}

impl VerifyResult {
    /// The report as text.
    pub fn to_string(&self) -> (s: String)
        ensures
            s@ == self@.text(),
    {
        let mut s = (if self.valid {
            "✓ valid\n  blocks:   "
        } else {
            "✗ invalid\n  blocks:   "
        }).to_owned();
        text::push_dec(&mut s, self.block_count as u64);
        s.append(
            if self.state_present {
                "\n  state:    present\n"
            } else {
                "\n  state:    absent\n"
            },
        );
        match self.manifest_match {
            None => {
                assert(s@ + Seq::empty() =~= s@);
            },
            Some(true) => s.append("  manifest: matches\n"),
            Some(false) => s.append("  manifest: MISMATCH\n"),
        }
        push_section(&mut s, "\nErrors:\n", &self.errors);
        push_section(&mut s, "\nWarnings:\n", &self.warnings);
        s
    }
}

/// The outcome for a file, made of its verification and of whether it matches
/// a manifest, if that was asked.
pub open spec fn outcome_of(
    vr: VerificationResultView,
    manifest_match: Option<bool>,
) -> VerifyResultView {
    VerifyResultView {
        valid: vr.valid && manifest_match != Some(false),
        block_count: vr.block_count,
        state_present: vr.state_present,
        errors: vr.errors,
        warnings: vr.warnings,
        manifest_match,
    }
}

/// See [`outcome_of`].
pub fn file_outcome(vr: VerificationResult, manifest_match: Option<bool>) -> (r: VerifyResult)
    ensures
        r@ == outcome_of(vr@, manifest_match),
{
    let matches: bool = match manifest_match {
        Some(m) => m,
        None => true,
    };
    VerifyResult {
        valid: vr.valid && matches,
        block_count: vr.block_count,
        state_present: vr.state_present,
        errors: vr.errors,
        warnings: vr.warnings,
        manifest_match,
    }
}

/// The outcome for a directory.
#[derive(Debug, Clone)]
pub struct DirVerifyResult {
    pub path: String,
    pub checked: usize,
    pub passed: usize,
    pub failed: usize,
    pub failed_files: Vec<String>,
    pub total_size: u64,
    pub total_size_human: String,
}

/// The model of [`DirVerifyResult`].
#[verifier::ext_equal]
pub struct DirVerifyResultView {
    pub path: Seq<char>,
    pub checked: usize,
    pub passed: usize,
    pub failed: usize,
    pub failed_files: Seq<Seq<char>>,
    pub total_size: u64,
    pub total_size_human: Seq<char>,
}

impl View for DirVerifyResult {
    type V = DirVerifyResultView;

    open spec fn view(&self) -> DirVerifyResultView {
        DirVerifyResultView {
            path: self.path@,
            checked: self.checked,
            passed: self.passed,
            failed: self.failed,
            failed_files: model::views(self.failed_files@),
            total_size: self.total_size,
            total_size_human: self.total_size_human@,
        }
    }
}

impl DirVerifyResultView {
    /// The report as text.
    pub open spec fn text(self) -> Seq<char> {
        "Checked "@ + text::dec(self.checked as nat) + " files ("@ + self.total_size_human
            + " total)\n"@ + if self.failed == 0 {
            "✓ All "@ + text::dec(self.passed as nat) + " files passed verification\n"@
        } else {
            "✗ "@ + text::dec(self.failed as nat) + " files FAILED\n"@ + item_lines(
                self.failed_files,
                self.failed_files.len() as int,
            )
        }
    }
}

impl DirVerifyResult {
    /// The report as text.
    pub fn to_string(&self) -> (s: String)
        ensures
            s@ == self@.text(),
    {
        let mut s = "Checked ".to_owned();
        text::push_dec(&mut s, self.checked as u64);
        s.append(" files (");
        s.append(self.total_size_human.as_str());
        s.append(" total)\n");
        let mut rest: String;
        if self.failed == 0 {
            rest = "✓ All ".to_owned();
            text::push_dec(&mut rest, self.passed as u64);
            rest.append(" files passed verification\n");
        } else {
            rest = "✗ ".to_owned();
            text::push_dec(&mut rest, self.failed as u64);
            rest.append(" files FAILED\n");
            push_items(&mut rest, &self.failed_files);
        }
        s.append(rest.as_str());
        s
    }
}

/// Adds up the outcomes for the files of a directory.
pub struct DirVerify {
    checked: usize,
    passed: usize,
    failed_files: Vec<String>,
    total_size: u64,
}

/// The model of [`DirVerify`].
#[verifier::ext_equal]
pub struct DirVerifyView {
    pub checked: usize,
    pub passed: usize,
    pub failed_files: Seq<Seq<char>>,
    pub total_size: u64,
}

impl View for DirVerify {
    type V = DirVerifyView;

    closed spec fn view(&self) -> DirVerifyView {
        DirVerifyView {
            checked: self.checked,
            passed: self.passed,
            failed_files: model::views(self.failed_files@),
            total_size: self.total_size,
        }
    }
}

impl DirVerifyView {
    /// No file has been looked at.
    pub open spec fn start() -> DirVerifyView {
        DirVerifyView { checked: 0, passed: 0, failed_files: Seq::empty(), total_size: 0 }
    }

    /// After a file that is not there.
    pub open spec fn with_missing(self, name: Seq<char>) -> DirVerifyView {
        DirVerifyView { failed_files: self.failed_files.push(name), ..self }
    }

    /// After a file of this size that passes or fails.
    pub open spec fn with(self, name: Seq<char>, file_size: u64, passes: bool) -> DirVerifyView {
        DirVerifyView {
            checked: self.checked.wrapping_add(1),
            passed: if passes {
                self.passed.wrapping_add(1)
            } else {
                self.passed
            },
            failed_files: if passes {
                self.failed_files
            } else {
                self.failed_files.push(name)
            },
            total_size: bytes::wrap64(self.total_size + file_size),
        }
    }

    /// The outcome for the directory.
    pub open spec fn report(self, path: Seq<char>) -> DirVerifyResultView {
        DirVerifyResultView {
            path,
            checked: self.checked,
            passed: self.passed,
            failed: self.failed_files.len() as usize,
            failed_files: self.failed_files,
            total_size: self.total_size,
            total_size_human: cli::size_text(self.total_size),
        }
    }
}

impl DirVerify {
    pub fn new() -> (d: Self)
        ensures
            d@ == DirVerifyView::start(),
    {
        let d = DirVerify { checked: 0, passed: 0, failed_files: Vec::new(), total_size: 0 };
        assert(d@ =~= DirVerifyView::start());
        d
    }

    /// Take note of a file that is not there.
    pub fn add_missing(&mut self, name: String)
        ensures
            final(self)@ == old(self)@.with_missing(name@),
    {
        let ghost before = self.failed_files@;
        self.failed_files.push(name);
        proof {
            model::lemma_views_push(before, name);
        }
    }

    /// Take note of a file that passes or fails.
    pub fn record(&mut self, name: String, file_size: u64, passes: bool)
        ensures
            final(self)@ == old(self)@.with(name@, file_size, passes),
    {
        self.total_size = bytes::wrapping_sum(self.total_size, file_size);
        self.checked = self.checked.wrapping_add(1);
        if passes {
            self.passed = self.passed.wrapping_add(1);
        } else {
            let ghost before = self.failed_files@;
            self.failed_files.push(name);
            proof {
                model::lemma_views_push(before, name);
            }
        }
    }

    /// Verify a file, whose content is not there if it could not be read.
    pub fn add_file(&mut self, name: String, file_size: u64, data: Option<&[u8]>)
        ensures
            final(self)@ == old(self)@.with(
                name@,
                file_size,
                data matches Some(data) && verify::verification_of(data@).valid,
            ),
    {
        let passes: bool = match data {
            Some(data) => verify::verify_era(data).valid,
            None => false,
        };
        self.record(name, file_size, passes);
    }

    /// The outcome for the directory.
    pub fn finish(self, path: String) -> (r: DirVerifyResult)
        ensures
            r@ == self@.report(path@),
    {
        DirVerifyResult {
            path,
            checked: self.checked,
            passed: self.passed,
            failed: self.failed_files.len(),
            failed_files: self.failed_files,
            total_size: self.total_size,
            total_size_human: cli::human_size(self.total_size),
        }
    }
}

} // verus!
