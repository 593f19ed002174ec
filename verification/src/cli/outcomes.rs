//! What the outcomes of several files come to, and what the texts of the reports
//! say.

use vstd::prelude::*;

use crate::cli;
use crate::cli::building;
use crate::cli::info::{DirInfoResultView, InfoResultView};
use crate::cli::verify;
use crate::cli::verify::{DirVerifyView, VerifyResultView};
use crate::fs::directory;
use crate::fs::directory::DirectoryEntry;
use crate::fs::naming;
use crate::text;
use crate::verify::VerificationResultView;

verus! {

/// A file passes if and only if its verification finds it valid and it does not
/// fail to match a manifest. Everything else is told as it was found.
pub proof fn outcome_told(vr: VerificationResultView, manifest_match: Option<bool>)
    ensures
        ({
            let r = verify::outcome_of(vr, manifest_match);
            &&& manifest_match is None ==> r.valid == vr.valid
            &&& manifest_match == Some(true) ==> r.valid == vr.valid
            &&& manifest_match == Some(false) ==> !r.valid
            &&& r.manifest_match == manifest_match
            &&& r.errors == vr.errors && r.warnings == vr.warnings
            &&& r.block_count == vr.block_count && r.state_present == vr.state_present
        }),
{
}

/// What became of a file of a directory.
pub enum FileOutcome {
    /// It is not there.
    Missing,
    /// It passes.
    Passes(u64),
    /// It fails.
    Fails(u64),
}

/// The sums of a directory after its files.
pub open spec fn verified_sums(files: Seq<(Seq<char>, FileOutcome)>) -> DirVerifyView
    decreases files.len(),
{
    if files.len() == 0 {
        DirVerifyView::start()
    } else {
        let before = verified_sums(files.drop_last());
        let (name, outcome) = files.last();
        match outcome {
            FileOutcome::Missing => before.with_missing(name),
            FileOutcome::Passes(size) => before.with(name, size, true),
            FileOutcome::Fails(size) => before.with(name, size, false),
        }
    }
}

/// The size of the files that are there.
pub open spec fn present_size(files: Seq<(Seq<char>, FileOutcome)>) -> nat
    decreases files.len(),
{
    if files.len() == 0 {
        0
    } else {
        present_size(files.drop_last()) + match files.last().1 {
            FileOutcome::Missing => 0,
            FileOutcome::Passes(size) => size as nat,
            FileOutcome::Fails(size) => size as nat,
        }
    }
}

/// Whether a file is there.
pub open spec fn is_there() -> spec_fn((Seq<char>, FileOutcome)) -> bool {
    |f: (Seq<char>, FileOutcome)| !(f.1 is Missing)
}

/// Whether a file passes.
pub open spec fn is_good() -> spec_fn((Seq<char>, FileOutcome)) -> bool {
    |f: (Seq<char>, FileOutcome)| f.1 is Passes
}

/// Whether a file is missing or fails.
pub open spec fn is_bad() -> spec_fn((Seq<char>, FileOutcome)) -> bool {
    |f: (Seq<char>, FileOutcome)| !(f.1 is Passes)
}

/// The outcome for a directory counts the files that are there, those that pass,
/// and those that fail or are missing, which it lists by name in order. It adds
/// up the sizes of the files that are there.
pub proof fn directory_verified(path: Seq<char>, files: Seq<(Seq<char>, FileOutcome)>)
    requires
        files.len() <= usize::MAX,
        present_size(files) <= u64::MAX,
    ensures
        ({
            let r = verified_sums(files).report(path);
            let bad = files.filter(is_bad());
            &&& r.path == path
            &&& r.checked == files.filter(is_there()).len()
            &&& r.passed == files.filter(is_good()).len()
            &&& r.failed == bad.len()
            &&& r.failed_files.len() == bad.len()
            &&& forall|i: int| 0 <= i < bad.len() ==> #[trigger] r.failed_files[i] == bad[i].0
            &&& r.total_size == present_size(files)
            &&& r.passed + r.failed == files.len()
        }),
{
    lemma_verified(files);
}

proof fn lemma_verified(files: Seq<(Seq<char>, FileOutcome)>)
    requires
        files.len() <= usize::MAX,
        present_size(files) <= u64::MAX,
    ensures
        ({
            let v = verified_sums(files);
            let bad = files.filter(is_bad());
            &&& v.checked == files.filter(is_there()).len() <= files.len()
            &&& v.passed == files.filter(is_good()).len()
            &&& v.failed_files.len() == bad.len()
            &&& forall|i: int| 0 <= i < bad.len() ==> #[trigger] v.failed_files[i] == bad[i].0
            &&& v.total_size == present_size(files)
            &&& v.passed + bad.len() == files.len()
        }),
    decreases files.len(),
{
    if files.len() > 0 {
        let front = files.drop_last();
        let last = files.last();
        lemma_verified(front);
        assert(front.push(last) =~= files);
        front.lemma_filter_push(last, is_bad());
        front.lemma_filter_push(last, is_good());
        front.lemma_filter_push(last, is_there());
    } else {
        reveal(Seq::filter);
    }
}

/// Whether the name of an entry ends with `.snappy`.
pub open spec fn for_block() -> spec_fn(DirectoryEntry) -> bool {
    |e: DirectoryEntry|
        e.name@.len() >= 7 && e.name@.skip(e.name@.len() - 7) == seq![
            '.',
            's',
            'n',
            'a',
            'p',
            'p',
            'y',
        ]
}

/// The slot that the name of an entry tells.
pub open spec fn told_slot(e: DirectoryEntry) -> Option<u64> {
    naming::numeral(e.name@.take(e.name@.len() - 7))
}

/// Files for blocks are those whose name ends with `.snappy`, in order, and the
/// rest of the name is the slot. If one tells no slot, the first such name is
/// the error.
#[verifier::spinoff_prover]
pub proof fn block_files_named(entries: Seq<DirectoryEntry>)
    ensures
        ({
            let files = entries.filter(for_block());
            match building::named_slots(entries) {
                Ok(named) => {
                    &&& named.len() == files.len()
                    &&& forall|k: int|
                        0 <= k < files.len() ==> told_slot(#[trigger] files[k]) == Some(named[k].0)
                            && named[k].1 == files[k].path@
                },
                Err(name) => exists|k: int|
                    0 <= k < files.len() && told_slot(#[trigger] files[k]) is None && name
                        == files[k].name@ && forall|j: int|
                        0 <= j < k ==> told_slot(#[trigger] files[j]) is Some,
            }
        }),
    decreases entries.len(),
{
    reveal_strlit(".snappy");
    assert(".snappy"@ =~= seq!['.', 's', 'n', 'a', 'p', 'p', 'y']);
    let files = entries.filter(for_block());
    if entries.len() > 0 {
        let front = entries.drop_last();
        let e = entries.last();
        let before = front.filter(for_block());
        block_files_named(front);
        front.lemma_filter_push(e, for_block());
        assert(front.push(e) =~= entries);
        assert(for_block()(e) <==> naming::ends_with(e.name@, ".snappy"@));
        match building::named_slots(front) {
            Err(name) => {
                let k = choose|k: int|
                    0 <= k < before.len() && told_slot(#[trigger] before[k]) is None && name
                        == before[k].name@ && forall|j: int|
                        0 <= j < k ==> told_slot(#[trigger] before[j]) is Some;
                assert(files[k] == before[k]);
                assert forall|j: int| 0 <= j < k implies told_slot(#[trigger] files[j]) is Some by {
                    assert(files[j] == before[j]);
                }
            },
            Ok(named) => {
                let n = before.len() as int;
                assert forall|k: int| 0 <= k < n implies told_slot(#[trigger] before[k]) == Some(
                    named[k].0,
                ) && named[k].1 == before[k].path@ by {}
                if for_block()(e) {
                    assert(files[n] == e);
                    assert forall|j: int| 0 <= j < n implies #[trigger] files[j] == before[j] by {}
                    if told_slot(e) is None {
                        assert forall|j: int| 0 <= j < n implies told_slot(
                            #[trigger] files[j],
                        ) is Some by {
                            assert(files[j] == before[j]);
                        }
                        assert(told_slot(files[n]) is None);
                    }
                }
            },
        }
    } else {
        reveal(Seq::filter);
    }
}

/// Whether the name of an entry is that of an archive file.
pub open spec fn for_archive() -> spec_fn(DirectoryEntry) -> bool {
    |e: DirectoryEntry| naming::parsed_name(e.name@) is Some
}

/// The archives of a directory are the entries whose name is that of an archive
/// file, in order, each with its era number and its path.
pub proof fn archives_listed(entries: Seq<DirectoryEntry>)
    ensures
        ({
            let files = entries.filter(for_archive());
            let listed = directory::archives(entries);
            &&& listed.len() == files.len()
            &&& forall|k: int|
                0 <= k < files.len() ==> listed[k].1 == (#[trigger] files[k]).path@ && listed[k].0
                    == naming::parsed_name(files[k].name@)->Some_0.era_number
        }),
    decreases entries.len(),
{
    if entries.len() > 0 {
        let front = entries.drop_last();
        archives_listed(front);
        front.lemma_filter_push(entries.last(), for_archive());
        assert(front.push(entries.last()) =~= entries);
    } else {
        reveal(Seq::filter);
    }
}

/// Whether a text has a part in it.
pub open spec fn says(s: Seq<char>, part: Seq<char>) -> bool {
    exists|a: Seq<char>, b: Seq<char>| s == #[trigger] (a + part + b)
}

proof fn lemma_says(s: Seq<char>, a: Seq<char>, part: Seq<char>, b: Seq<char>)
    requires
        s == a + part + b,
    ensures
        says(s, part),
{
}

/// The text of a report about a file has a line for each of the format, the
/// size, the first slot, the slots, the blocks, the state and the entries.
pub proof fn info_text_says(r: InfoResultView)
    ensures
        says(r.text(), "\nStarting slot:     "@ + text::dec(r.starting_slot as nat) + "\n"@),
        says(r.text(), "\nBlock count:       "@ + text::dec(r.block_count as nat) + "\n"@),
        says(r.text(), "\nTotal entries:     "@ + text::dec(r.total_entries as nat) + "\n"@),
        r.state_present ==> says(r.text(), "\nState present:     yes\n"@),
        !r.state_present ==> says(r.text(), "\nState present:     no\n"@),
        says(
            r.text(),
            "\nSlot range:        "@ + text::dec(r.slot_range[0] as nat) + ".."@ + text::dec(
                r.slot_range[1] as nat,
            ) + "\n"@,
        ),
        says(r.text(), "Format:            "@ + r.format + "\n"@),
        says(
            r.text(),
            "\nFile size:         "@ + r.file_size_human + " ("@ + text::dec(r.file_size as nat)
                + ")\n"@,
        ),
{
    let s = r.text();
    let p = info_pieces(r);
    lemma_info_pieces(r);
    lemma_info_breaks(r);
    lemma_piece(p, 0, 8);
    lemma_piece(p, 1, 8);
    lemma_piece(p, 2, 8);
    lemma_piece(p, 3, 8);
    lemma_piece(p, 4, 8);
    lemma_piece(p, 5, 8);
    lemma_piece(p, 6, 8);
    lemma_info_ends(r);
}

/// The pieces of the text of a report, each up to the next line.
spec fn info_pieces(r: InfoResultView) -> Seq<Seq<char>> {
    seq![
        "Format:            "@ + r.format,
        "\nFile size:         "@ + r.file_size_human + " ("@ + text::dec(r.file_size as nat) + ")"@,
        "\nStarting slot:     "@ + text::dec(r.starting_slot as nat),
        "\nSlot range:        "@ + text::dec(r.slot_range[0] as nat) + ".."@ + text::dec(
            r.slot_range[1] as nat,
        ),
        "\nBlock count:       "@ + text::dec(r.block_count as nat),
        "\nState present:     "@ + cli::info::yes_no(r.state_present),
        "\nTotal entries:     "@ + text::dec(r.total_entries as nat),
        "\n\nEntry breakdown:\n"@ + cli::info::breakdown_lines(
            r.entries,
            cli::info::longest_name(r.entries, r.entries.len() as int),
            r.entries.len() as int,
        ),
    ]
}

/// The first `n` pieces in a row.
spec fn in_a_row(p: Seq<Seq<char>>, n: int) -> Seq<char>
    decreases n,
{
    if n <= 0 {
        Seq::empty()
    } else {
        in_a_row(p, n - 1) + p[n - 1]
    }
}

/// A piece is said with the line feed that starts the next.
proof fn lemma_piece(p: Seq<Seq<char>>, k: int, n: int)
    requires
        0 <= k && k + 1 < n <= p.len(),
        p[k + 1].len() > 0,
        p[k + 1][0] == '\n',
    ensures
        says(in_a_row(p, n), p[k] + "\n"@),
    decreases n,
{
    let all = in_a_row(p, n);
    if k + 2 == n {
        let front = in_a_row(p, k);
        assert(in_a_row(p, k + 1) == front + p[k]);
        assert(all =~= front + p[k] + p[k + 1]);
        lemma_line(front, p[k], p[k + 1], all, p[k]);
    } else {
        lemma_piece(p, k, n - 1);
        let empty = Seq::<char>::empty();
        assert(all =~= empty + in_a_row(p, n - 1) + p[n - 1]);
        lemma_within(all, empty, in_a_row(p, n - 1), p[n - 1], p[k] + "\n"@);
    }
}

/// The text of a report is its pieces.
#[verifier::spinoff_prover]
#[verifier::rlimit(60)]
proof fn lemma_info_pieces(r: InfoResultView)
    ensures
        r.text() == in_a_row(info_pieces(r), 8),
{
    let p = info_pieces(r);
    let start = text::dec(r.starting_slot as nat);
    let size = text::dec(r.file_size as nat);
    let low = text::dec(r.slot_range[0] as nat);
    let high = text::dec(r.slot_range[1] as nat);
    assert(")\nStarting slot:     "@ =~= ")"@ + "\nStarting slot:     "@) by {
        reveal_strlit(")\nStarting slot:     ");
        reveal_strlit("\nStarting slot:     ");
        reveal_strlit(")");
    }
    let q1 = in_a_row(p, 1);
    assert(in_a_row(p, 0) =~= Seq::empty());
    assert(q1 =~= "Format:            "@ + r.format);
    let q2 = in_a_row(p, 2);
    assert(q2 == q1 + p[1]);
    assert(q2 =~= q1 + "\nFile size:         "@ + r.file_size_human + " ("@ + size + ")"@);
    let q3 = in_a_row(p, 3);
    assert(q3 == q2 + p[2]);
    let head = q1 + "\nFile size:         "@ + r.file_size_human + " ("@ + size;
    assert(q3 =~= head + ")\nStarting slot:     "@ + start);
    let q4 = in_a_row(p, 4);
    assert(q4 == q3 + p[3]);
    assert(q4 =~= q3 + "\nSlot range:        "@ + low + ".."@ + high);
    let q5 = in_a_row(p, 5);
    assert(q5 == q4 + p[4]);
    assert(q5 =~= q4 + "\nBlock count:       "@ + text::dec(r.block_count as nat));
    let q6 = in_a_row(p, 6);
    assert(q6 == q5 + p[5]);
    assert(q6 =~= q5 + "\nState present:     "@ + cli::info::yes_no(r.state_present));
    let q7 = in_a_row(p, 7);
    assert(q7 == q6 + p[6]);
    assert(q7 =~= q6 + "\nTotal entries:     "@ + text::dec(r.total_entries as nat));
    let lines = cli::info::breakdown_lines(
        r.entries,
        cli::info::longest_name(r.entries, r.entries.len() as int),
        r.entries.len() as int,
    );
    assert(in_a_row(p, 8) == q7 + p[7]);
    assert(q7 + p[7] =~= q7 + "\n\nEntry breakdown:\n"@ + lines);
}

/// Each piece after the first starts a line.
proof fn lemma_info_breaks(r: InfoResultView)
    ensures
        forall|k: int|
            1 <= k < 8 ==> (#[trigger] info_pieces(r)[k]).len() > 0 && info_pieces(r)[k][0] == '\n',
{
    reveal_strlit("\nFile size:         ");
    reveal_strlit("\nStarting slot:     ");
    reveal_strlit("\nSlot range:        ");
    reveal_strlit("\nBlock count:       ");
    reveal_strlit("\nState present:     ");
    reveal_strlit("\nTotal entries:     ");
    reveal_strlit("\n\nEntry breakdown:\n");
}

/// The ends of two of the pieces.
#[verifier::spinoff_prover]
#[verifier::rlimit(60)]
proof fn lemma_info_ends(r: InfoResultView)
    ensures
        info_pieces(r)[5] + "\n"@ == if r.state_present {
            "\nState present:     yes\n"@
        } else {
            "\nState present:     no\n"@
        },
        info_pieces(r)[1] + "\n"@ == "\nFile size:         "@ + r.file_size_human + " ("@
            + text::dec(r.file_size as nat) + ")\n"@,
{
    assert(")\n"@ =~= ")"@ + "\n"@) by {
        reveal_strlit(")\n");
        reveal_strlit(")");
        reveal_strlit("\n");
    }
    let front = "\nFile size:         "@ + r.file_size_human + " ("@ + text::dec(r.file_size as nat);
    assert(info_pieces(r)[1] == front + ")"@);
    assert(front + ")"@ + "\n"@ =~= front + ")\n"@);
    reveal_strlit("\n");
    reveal_strlit("\nState present:     ");
    reveal_strlit("\nState present:     yes\n");
    reveal_strlit("\nState present:     no\n");
    reveal_strlit("yes");
    reveal_strlit("no");
    assert(info_pieces(r)[5] == "\nState present:     "@ + cli::info::yes_no(r.state_present));
    if r.state_present {
        assert(info_pieces(r)[5] + "\n"@ =~= "\nState present:     yes\n"@);
    } else {
        assert(info_pieces(r)[5] + "\n"@ =~= "\nState present:     no\n"@);
    }
}

/// A line that is followed by a line feed is said with it.
proof fn lemma_line(
    before: Seq<char>,
    line: Seq<char>,
    after: Seq<char>,
    s: Seq<char>,
    same: Seq<char>,
)
    requires
        s =~= before + line + after,
        after.len() > 0,
        after[0] == '\n',
        same == line,
    ensures
        says(s, same + "\n"@),
{
    reveal_strlit("\n");
    let rest = after.skip(1);
    assert("\n"@ + rest =~= after);
    assert(s =~= before + (same + "\n"@) + rest);
    lemma_says(s, before, same + "\n"@, rest);
}

/// The text of a report about a directory has a line for each of its sums.
pub proof fn dir_info_text_says(r: DirInfoResultView)
    ensures
        says(r.text(), "Directory:  "@ + r.path + "\n"@),
        says(r.text(), "\nFiles:      "@ + text::dec(r.file_count as nat) + "\n"@),
        says(r.text(), ")\nBlocks:     "@ + text::dec(r.total_blocks as nat) + "\n"@),
        says(r.text(), "\nStates:     "@ + text::dec(r.states_present as nat) + "\n"@),
        says(
            r.text(),
            "\nSlot range: "@ + text::dec(r.slot_range[0] as nat) + ".."@ + text::dec(
                r.slot_range[1] as nat,
            ) + "\n"@,
        ),
{
    let p = dir_pieces(r);
    lemma_dir_pieces(r);
    lemma_dir_breaks(r);
    lemma_piece(p, 0, 7);
    lemma_piece(p, 1, 7);
    lemma_piece(p, 3, 7);
    lemma_piece(p, 4, 7);
    lemma_piece(p, 5, 7);
}

/// The pieces of the text of a report about a directory.
spec fn dir_pieces(r: DirInfoResultView) -> Seq<Seq<char>> {
    seq![
        "Directory:  "@ + r.path,
        "\nFiles:      "@ + text::dec(r.file_count as nat),
        "\nTotal size: "@ + r.total_size_human + " ("@ + text::dec(r.total_size as nat),
        ")\nBlocks:     "@ + text::dec(r.total_blocks as nat),
        "\nSlot range: "@ + text::dec(r.slot_range[0] as nat) + ".."@ + text::dec(
            r.slot_range[1] as nat,
        ),
        "\nStates:     "@ + text::dec(r.states_present as nat),
        "\n"@,
    ]
}

/// The text of a report about a directory is its pieces.
#[verifier::spinoff_prover]
#[verifier::rlimit(60)]
proof fn lemma_dir_pieces(r: DirInfoResultView)
    ensures
        r.text() == in_a_row(dir_pieces(r), 7),
{
    let p = dir_pieces(r);
    let q1 = in_a_row(p, 1);
    assert(in_a_row(p, 0) =~= Seq::empty());
    assert(q1 =~= "Directory:  "@ + r.path);
    let q2 = in_a_row(p, 2);
    assert(q2 == q1 + p[1]);
    assert(q2 =~= q1 + "\nFiles:      "@ + text::dec(r.file_count as nat));
    let q3 = in_a_row(p, 3);
    assert(q3 == q2 + p[2]);
    assert(q3 =~= q2 + "\nTotal size: "@ + r.total_size_human + " ("@ + text::dec(
        r.total_size as nat,
    ));
    let q4 = in_a_row(p, 4);
    assert(q4 == q3 + p[3]);
    assert(q4 =~= q3 + ")\nBlocks:     "@ + text::dec(r.total_blocks as nat));
    let q5 = in_a_row(p, 5);
    assert(q5 == q4 + p[4]);
    assert(q5 =~= q4 + "\nSlot range: "@ + text::dec(r.slot_range[0] as nat) + ".."@ + text::dec(
        r.slot_range[1] as nat,
    ));
    let q6 = in_a_row(p, 6);
    assert(q6 == q5 + p[5]);
    assert(q6 =~= q5 + "\nStates:     "@ + text::dec(r.states_present as nat));
    assert(in_a_row(p, 7) == q6 + p[6]);
}

/// Which pieces start a line.
proof fn lemma_dir_breaks(r: DirInfoResultView)
    ensures
        forall|k: int|
            1 <= k < 7 && k != 3 ==> (#[trigger] dir_pieces(r)[k]).len() > 0 && dir_pieces(r)[k][0]
                == '\n',
{
    reveal_strlit("\n");
    reveal_strlit("\nFiles:      ");
    reveal_strlit("\nTotal size: ");
    reveal_strlit("\nSlot range: ");
    reveal_strlit("\nStates:     ");
}

/// The text of the outcome for a file says whether it is valid, how many blocks
/// it has and whether it has a state, and lists each error and each warning.
#[verifier::spinoff_prover]
pub proof fn outcome_text_says(r: VerifyResultView, k: int)
    ensures
        r.valid ==> says(r.text(), "\u{2713} valid\n  blocks:   "@ + text::dec(r.block_count as nat)),
        !r.valid ==> says(
            r.text(),
            "\u{2717} invalid\n  blocks:   "@ + text::dec(r.block_count as nat),
        ),
        r.state_present ==> says(r.text(), "\n  state:    present\n"@),
        !r.state_present ==> says(r.text(), "\n  state:    absent\n"@),
        r.manifest_match == Some(true) ==> says(r.text(), "  manifest: matches\n"@),
        r.manifest_match == Some(false) ==> says(r.text(), "  manifest: MISMATCH\n"@),
        0 <= k < r.errors.len() ==> says(r.text(), "  - "@ + r.errors[k] + "\n"@),
        0 <= k < r.warnings.len() ==> says(r.text(), "  - "@ + r.warnings[k] + "\n"@),
{
    let p = outcome_pieces(r);
    lemma_outcome_pieces(r);
    lemma_whole(p[0]);
    lemma_whole(p[1]);
    lemma_whole(p[2]);
    lemma_piece_says(p, 0, 5, p[0]);
    lemma_piece_says(p, 1, 5, p[1]);
    lemma_piece_says(p, 2, 5, p[2]);
    if 0 <= k < r.errors.len() {
        lemma_section("\nErrors:\n"@, r.errors, k);
        lemma_piece_says(p, 3, 5, "  - "@ + r.errors[k] + "\n"@);
    }
    if 0 <= k < r.warnings.len() {
        lemma_section("\nWarnings:\n"@, r.warnings, k);
        lemma_piece_says(p, 4, 5, "  - "@ + r.warnings[k] + "\n"@);
    }
}

/// The pieces of the text of the outcome for a file.
spec fn outcome_pieces(r: VerifyResultView) -> Seq<Seq<char>> {
    seq![
        (if r.valid {
            "\u{2713} valid\n  blocks:   "@
        } else {
            "\u{2717} invalid\n  blocks:   "@
        }) + text::dec(r.block_count as nat),
        if r.state_present {
            "\n  state:    present\n"@
        } else {
            "\n  state:    absent\n"@
        },
        verify::manifest_text(r.manifest_match),
        verify::section("\nErrors:\n"@, r.errors),
        verify::section("\nWarnings:\n"@, r.warnings),
    ]
}

/// The text of the outcome for a file is its pieces.
proof fn lemma_outcome_pieces(r: VerifyResultView)
    ensures
        r.text() == in_a_row(outcome_pieces(r), 5),
{
    let p = outcome_pieces(r);
    assert(in_a_row(p, 0) =~= Seq::empty());
    assert(in_a_row(p, 1) =~= p[0]);
    assert(in_a_row(p, 2) == in_a_row(p, 1) + p[1]);
    assert(in_a_row(p, 3) == in_a_row(p, 2) + p[2]);
    assert(in_a_row(p, 4) == in_a_row(p, 3) + p[3]);
    assert(in_a_row(p, 5) == in_a_row(p, 4) + p[4]);
}

/// A text says itself.
proof fn lemma_whole(s: Seq<char>)
    ensures
        says(s, s),
{
    let empty = Seq::<char>::empty();
    assert(s =~= empty + s + empty);
    lemma_says(s, empty, s, empty);
}

/// What a piece says the whole says.
proof fn lemma_piece_says(p: Seq<Seq<char>>, k: int, n: int, what: Seq<char>)
    requires
        0 <= k < n <= p.len(),
        says(p[k], what),
    ensures
        says(in_a_row(p, n), what),
    decreases n,
{
    let all = in_a_row(p, n);
    let front = in_a_row(p, n - 1);
    let empty = Seq::<char>::empty();
    if k == n - 1 {
        assert(all =~= front + p[k] + empty);
        lemma_within(all, front, p[k], empty, what);
    } else {
        lemma_piece_says(p, k, n - 1, what);
        assert(all =~= empty + front + p[n - 1]);
        lemma_within(all, empty, front, p[n - 1], what);
    }
}

/// A section has a line for each item.
proof fn lemma_section(title: Seq<char>, items: Seq<Seq<char>>, k: int)
    requires
        0 <= k < items.len(),
    ensures
        says(verify::section(title, items), "  - "@ + items[k] + "\n"@),
{
    let n = items.len() as int;
    let lines = verify::item_lines(items, n);
    let empty = Seq::<char>::empty();
    lemma_item(items, k, n);
    assert(verify::section(title, items) =~= title + lines + empty);
    lemma_within(
        verify::section(title, items),
        title,
        lines,
        empty,
        "  - "@ + items[k] + "\n"@,
    );
}

/// The breakdown has a line for each name with its count, and the names are
/// filled up to the width of the longest.
#[verifier::spinoff_prover]
#[verifier::rlimit(60)]
pub proof fn breakdown_text_says(entries: Seq<(Seq<char>, usize)>, k: int)
    requires
        0 <= k < entries.len(),
    ensures
        ({
            let n = entries.len() as int;
            let width = cli::info::longest_name(entries, n);
            &&& entries[k].0.len() <= width
            &&& exists|i: int| 0 <= i < n && (#[trigger] entries[i]).0.len() == width
            &&& says(
                cli::info::breakdown_lines(entries, width, n),
                "  "@ + entries[k].0 + text::spaces((width - entries[k].0.len()) as nat) + " "@
                    + text::dec(entries[k].1 as nat) + "\n"@,
            )
        }),
{
    let n = entries.len() as int;
    let width = cli::info::longest_name(entries, n);
    lemma_longest(entries, n);
    assert(entries[k].0.len() <= width);
    lemma_breakdown_line(entries, width, k, n);
    let (name, count) = entries[k];
    let fill = text::spaces((width - name.len()) as nat);
    assert(text::left_aligned(name, width) =~= name + fill);
    assert("  "@ + text::left_aligned(name, width) =~= "  "@ + name + fill);
}

proof fn lemma_longest(entries: Seq<(Seq<char>, usize)>, n: int)
    requires
        0 < n <= entries.len(),
    ensures
        forall|k: int|
            0 <= k < n ==> (#[trigger] entries[k]).0.len() <= cli::info::longest_name(entries, n),
        exists|i: int|
            0 <= i < n && (#[trigger] entries[i]).0.len() == cli::info::longest_name(entries, n),
    decreases n,
{
    if n > 1 {
        lemma_longest(entries, n - 1);
        if entries[n - 1].0.len() <= cli::info::longest_name(entries, n - 1) {
            let i = choose|i: int|
                0 <= i < n - 1 && (#[trigger] entries[i]).0.len() == cli::info::longest_name(
                    entries,
                    n - 1,
                );
            assert(entries[i].0.len() == cli::info::longest_name(entries, n));
        } else {
            assert(entries[n - 1].0.len() == cli::info::longest_name(entries, n));
        }
    } else {
        assert(cli::info::longest_name(entries, 0) == 0);
        assert(entries[0].0.len() == cli::info::longest_name(entries, n));
    }
}

#[verifier::spinoff_prover]
proof fn lemma_breakdown_line(entries: Seq<(Seq<char>, usize)>, width: nat, k: int, n: int)
    requires
        0 <= k < n <= entries.len(),
    ensures
        says(
            cli::info::breakdown_lines(entries, width, n),
            "  "@ + text::left_aligned(entries[k].0, width) + " "@ + text::dec(
                entries[k].1 as nat,
            ) + "\n"@,
        ),
    decreases n,
{
    let front = cli::info::breakdown_lines(entries, width, n - 1);
    let all = cli::info::breakdown_lines(entries, width, n);
    let empty = Seq::<char>::empty();
    let last = "  "@ + text::left_aligned(entries[n - 1].0, width) + " "@ + text::dec(
        entries[n - 1].1 as nat,
    ) + "\n"@;
    assert(all =~= front + last);
    if k == n - 1 {
        assert(all =~= front + last + empty);
        lemma_says(all, front, last, empty);
    } else {
        lemma_breakdown_line(entries, width, k, n - 1);
        let line = "  "@ + text::left_aligned(entries[k].0, width) + " "@ + text::dec(
            entries[k].1 as nat,
        ) + "\n"@;
        assert(all =~= empty + front + last);
        lemma_within(all, empty, front, last, line);
    }
}

/// What a part says the whole says.
pub proof fn lemma_within(
    s: Seq<char>,
    before: Seq<char>,
    part: Seq<char>,
    after: Seq<char>,
    what: Seq<char>,
)
    requires
        s =~= before + part + after,
        says(part, what),
    ensures
        says(s, what),
{
    let (a, b) = choose|a: Seq<char>, b: Seq<char>| part == #[trigger] (a + what + b);
    assert(s =~= (before + a) + what + (b + after));
    lemma_says(s, before + a, what, b + after);
}

/// Each item has a line.
pub proof fn lemma_item(items: Seq<Seq<char>>, k: int, n: int)
    requires
        0 <= k < n <= items.len(),
    ensures
        says(verify::item_lines(items, n), "  - "@ + items[k] + "\n"@),
    decreases n,
{
    let front = verify::item_lines(items, n - 1);
    let all = verify::item_lines(items, n);
    let empty = Seq::<char>::empty();
    if k == n - 1 {
        assert(all =~= front + ("  - "@ + items[k] + "\n"@) + empty);
        lemma_says(all, front, "  - "@ + items[k] + "\n"@, empty);
    } else {
        lemma_item(items, k, n - 1);
        assert(all =~= empty + front + ("  - "@ + items[n - 1] + "\n"@));
        lemma_within(
            all,
            empty,
            front,
            "  - "@ + items[n - 1] + "\n"@,
            "  - "@ + items[k] + "\n"@,
        );
    }
}

/// Files in order of their slots repeat none if and only if no two have the same
/// slot.
pub proof fn no_slot_twice(files: Seq<(u64, Seq<char>)>)
    requires
        naming::in_order(files),
    ensures
        building::no_repeats(files) <==> forall|i: int, j: int|
            0 <= i < j < files.len() ==> (#[trigger] files[i]).0 != (#[trigger] files[j]).0,
{
    if forall|i: int, j: int|
        0 <= i < j < files.len() ==> (#[trigger] files[i]).0 != (#[trigger] files[j]).0 {
        assert forall|i: int, j: int| 0 <= i < j < files.len() implies (#[trigger] files[i]).0 < (
        #[trigger] files[j]).0 by {
            assert(files[i].0 <= files[j].0);
        }
    }
}

} // verus!
