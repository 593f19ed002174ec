//! What the other texts of the commands say, and which blocks and files a
//! command is about.

use vstd::prelude::*;

use crate::cli;
use crate::cli::building::BuildResult;
use crate::cli::convert;
use crate::cli::outcomes;
use crate::cli::read;
use crate::cli::read::{BlockSummaryView, ReadArgs, ReadErrorView, ReadPlan, ReadResultView};
use crate::cli::verify;
use crate::cli::verify::DirVerifyResultView;
use crate::error::{E2StoreErrorView, ErrorView};
use crate::read::random::SlotLookupError;
use crate::text;

verus! {

/// A slot that is asked for comes before everything else. Without one, a file is
/// streamed up to the count, or whole if all is asked for; a directory must be
/// asked for all or for a count, and is streamed up to the count.
pub proof fn plans(args: ReadArgs)
    ensures
        args.slot matches Some(slot) ==> args.planned() == ReadPlan::Slot(slot)
            && args.planned_for_dir() == Some(ReadPlan::Slot(slot)),
        args.slot is None && args.all ==> args.planned() == ReadPlan::Stream(None)
            && args.planned_for_dir() == Some(ReadPlan::Stream(args.count)),
        args.slot is None && !args.all ==> args.planned() == ReadPlan::Stream(args.count),
        args.slot is None && !args.all && args.count is Some ==> args.planned_for_dir() == Some(
            ReadPlan::Stream(args.count),
        ),
        args.slot is None && !args.all && args.count is None ==> args.planned_for_dir() is None,
{
}

/// All files of a directory are read, unless a number of blocks is asked for:
/// then no more than one.
pub proof fn files_planned(files: nat, count: usize)
    ensures
        read::files_read(files, None) == files,
        read::files_read(files, Some(count)) <= 1,
        read::files_read(files, Some(count)) == 0 <==> files == 0,
{
}

/// What was saved and what was written make up what was read, unless nothing was
/// saved.
pub proof fn saved_and_written(input_size: u64, output_size: u64)
    ensures
        convert::saved(input_size, output_size) >= 0,
        output_size <= input_size ==> convert::saved(input_size, output_size) + output_size
            == input_size,
        output_size >= input_size ==> convert::saved(input_size, output_size) == 0,
{
}

proof fn lemma_part(s: Seq<char>, a: Seq<char>, part: Seq<char>, b: Seq<char>)
    requires
        s =~= a + part + b,
    ensures
        outcomes::says(s, part),
{
    assert(s == a + part + b);
}

/// The summary of a block starts with its slot, which is filled up to eight
/// characters, and ends with the digest.
#[verifier::spinoff_prover]
#[verifier::rlimit(60)]
pub proof fn summary_text_says(s: BlockSummaryView)
    ensures
        ({
            let slot = "slot="@ + text::left_aligned(text::dec(s.slot as nat), 8) + " "@;
            &&& s.text().take(slot.len() as int) == slot
            &&& outcomes::says(s.text(), text::right_aligned(s.format, 4) + "  "@ + s.size_human)
            &&& s.text().skip(s.text().len() - s.hash_prefix.len()) == s.hash_prefix
        }),
{
    let slot = "slot="@ + text::left_aligned(text::dec(s.slot as nat), 8) + " "@;
    let format = text::right_aligned(s.format, 4);
    let t = s.text();
    assert(t.take(slot.len() as int) =~= slot);
    lemma_part(t, slot, format + "  "@ + s.size_human, "  "@ + s.hash_prefix);
    assert(t.skip(t.len() - s.hash_prefix.len()) =~= s.hash_prefix);
}

/// What has been read is told with a line for each block, and one for the state
/// if there is one.
pub proof fn read_text_says(r: ReadResultView, k: int)
    ensures
        0 <= k < r.blocks.len() ==> outcomes::says(r.text(), r.blocks[k].text() + "\n"@),
        r.state matches Some(s) ==> outcomes::says(
            r.text(),
            "state          "@ + s.size_human + "  "@ + s.hash_prefix + "\n"@,
        ),
        r.state is None && r.blocks.len() == 0 ==> r.text().len() == 0,
{
    let n = r.blocks.len() as int;
    let lines = read::block_lines(r.blocks, n);
    let empty = Seq::<char>::empty();
    if 0 <= k < n {
        lemma_block_line(r.blocks, k, n);
        assert(r.text() =~= empty + lines + read::state_line(r.state));
        outcomes::lemma_within(
            r.text(),
            empty,
            lines,
            read::state_line(r.state),
            r.blocks[k].text() + "\n"@,
        );
    }
    if r.state is Some {
        lemma_part(r.text(), lines, read::state_line(r.state), empty);
    }
}

proof fn lemma_block_line(blocks: Seq<BlockSummaryView>, k: int, n: int)
    requires
        0 <= k < n <= blocks.len(),
    ensures
        outcomes::says(read::block_lines(blocks, n), blocks[k].text() + "\n"@),
    decreases n,
{
    let front = read::block_lines(blocks, n - 1);
    let all = read::block_lines(blocks, n);
    let last = blocks[n - 1].text() + "\n"@;
    let empty = Seq::<char>::empty();
    assert(all =~= front + last);
    if k == n - 1 {
        lemma_part(all, front, last, empty);
    } else {
        lemma_block_line(blocks, k, n - 1);
        assert(all =~= empty + front + last);
        outcomes::lemma_within(all, empty, front, last, blocks[k].text() + "\n"@);
    }
}

/// The text of the outcome for a directory tells how many files were checked and
/// their size. Then it tells that all passed, or how many failed and which.
#[verifier::spinoff_prover]
#[verifier::rlimit(60)]
pub proof fn dir_verify_text_says(r: DirVerifyResultView, k: int)
    ensures
        outcomes::says(
            r.text(),
            "Checked "@ + text::dec(r.checked as nat) + " files ("@ + r.total_size_human
                + " total)\n"@,
        ),
        r.failed == 0 ==> outcomes::says(
            r.text(),
            "All "@ + text::dec(r.passed as nat) + " files passed verification\n"@,
        ),
        r.failed != 0 ==> outcomes::says(
            r.text(),
            text::dec(r.failed as nat) + " files FAILED\n"@,
        ),
        r.failed != 0 && 0 <= k < r.failed_files.len() ==> outcomes::says(
            r.text(),
            "  - "@ + r.failed_files[k] + "\n"@,
        ),
{
    let s = r.text();
    let empty = Seq::<char>::empty();
    let head = "Checked "@ + text::dec(r.checked as nat) + " files ("@ + r.total_size_human
        + " total)\n"@;
    if r.failed == 0 {
        let tail = text::dec(r.passed as nat) + " files passed verification\n"@;
        lemma_part(s, empty, head, "\u{2713} All "@ + tail);
        reveal_strlit("\u{2713} All ");
        reveal_strlit("\u{2713} ");
        reveal_strlit("All ");
        assert("\u{2713} All "@ =~= "\u{2713} "@ + "All "@);
        assert(s =~= (head + "\u{2713} "@) + ("All "@ + tail) + empty);
        assert("All "@ + tail =~= "All "@ + text::dec(r.passed as nat)
            + " files passed verification\n"@);
        lemma_part(
            s,
            head + "\u{2713} "@,
            "All "@ + text::dec(r.passed as nat) + " files passed verification\n"@,
            empty,
        );
    } else {
        let count = text::dec(r.failed as nat) + " files FAILED\n"@;
        let lines = verify::item_lines(r.failed_files, r.failed_files.len() as int);
        assert(s =~= head + "\u{2717} "@ + count + lines);
        lemma_part(s, empty, head, "\u{2717} "@ + count + lines);
        lemma_part(s, head + "\u{2717} "@, count, lines);
        if 0 <= k < r.failed_files.len() {
            outcomes::lemma_item(r.failed_files, k, r.failed_files.len() as int);
            assert(s =~= (head + "\u{2717} "@ + count) + lines + empty);
            outcomes::lemma_within(
                s,
                head + "\u{2717} "@ + count,
                lines,
                empty,
                "  - "@ + r.failed_files[k] + "\n"@,
            );
        }
    }
}

/// The text on a built file tells how many blocks there are, whether there is a
/// state, and the size.
#[verifier::spinoff_prover]
#[verifier::rlimit(60)]
pub proof fn build_text_says(r: BuildResult)
    ensures
        outcomes::says(r.text(), "Built "@ + text::dec(r.block_count as nat) + " blocks\n"@),
        r.state_included ==> outcomes::says(r.text(), "State: included\n"@),
        !r.state_included ==> outcomes::says(r.text(), "State: not included\n"@),
        outcomes::says(
            r.text(),
            "Output: "@ + r.output_size_human@ + " ("@ + text::dec(r.output_size as nat) + ")\n"@,
        ),
{
    let s = r.text();
    let empty = Seq::<char>::empty();
    let a = "Built "@ + text::dec(r.block_count as nat) + " blocks\n"@;
    let b = if r.state_included {
        "State: included\n"@
    } else {
        "State: not included\n"@
    };
    let c = "Output: "@ + r.output_size_human@ + " ("@ + text::dec(r.output_size as nat) + ")\n"@;
    assert(s =~= a + b + c);
    lemma_part(s, empty, a, b + c);
    lemma_part(s, a, b, c);
    lemma_part(s, a + b, c, empty);
}

/// The texts on converted files tell the size of what was written, what was
/// saved, and how many blocks went where.
#[verifier::spinoff_prover]
#[verifier::rlimit(60)]
pub proof fn convert_texts_say(size: u64, saved: u64, percent: Seq<char>, dir: Seq<char>)
    ensures
        outcomes::says(
            convert::reindexed_text(size),
            cli::size_text(size) + " ("@ + text::dec(size as nat) + ")\n"@,
        ),
        outcomes::says(
            convert::stripped_text(size, saved, percent),
            cli::size_text(size) + " ("@ + text::dec(size as nat) + ")\n  saved:  "@
                + cli::size_text(saved) + " ("@ + percent + "%)\n"@,
        ),
        outcomes::says(
            convert::split_text(size, dir),
            text::dec(size as nat) + " blocks to "@ + dir,
        ),
{
    let empty = Seq::<char>::empty();
    lemma_part(
        convert::reindexed_text(size),
        "Reindexed successfully\n  output: "@,
        cli::size_text(size) + " ("@ + text::dec(size as nat) + ")\n"@,
        empty,
    );
    lemma_part(
        convert::stripped_text(size, saved, percent),
        "Stripped successfully\n  output: "@,
        cli::size_text(size) + " ("@ + text::dec(size as nat) + ")\n  saved:  "@
            + cli::size_text(saved) + " ("@ + percent + "%)\n"@,
        empty,
    );
    lemma_part(
        convert::split_text(size, dir),
        "Split "@,
        text::dec(size as nat) + " blocks to "@ + dir,
        "\n"@,
    );
}

/// The text of each error.
pub proof fn error_texts(n: usize, r: u16, message: Seq<char>, a: u64, b: u64)
    ensures
        E2StoreErrorView::TruncatedHeader(n).text() == "truncated header: expected 8 bytes, got "@
            + text::dec(n as nat),
        E2StoreErrorView::NonZeroReserved(r).text() == "non-zero reserved field: "@ + text::dec(
            r as nat,
        ),
        E2StoreErrorView::MissingVersion.text() == "missing version entry as first entry"@,
        (E2StoreErrorView::OverlongEntry { declared: a, available: b }).text()
            == "entry data length exceeds remaining file: declared "@ + text::dec(a as nat)
            + ", available "@ + text::dec(b as nat),
        E2StoreErrorView::InvalidEra(message).text() == "invalid era file: "@ + message,
        E2StoreErrorView::InvalidEra1(message).text() == "invalid era1 file: "@ + message,
        E2StoreErrorView::InvalidManifest(message).text() == "invalid manifest: "@ + message,
        ErrorView::E2Store(E2StoreErrorView::MissingVersion).text() == "e2store parse error: "@
            + "missing version entry as first entry"@,
        SlotLookupError::EmptySlot.text() == "no block at this slot (skipped)"@,
        ReadErrorView::EmptySlot(a).text() == "slot "@ + text::dec(a as nat)
            + " is empty (skipped slot)"@,
        ReadErrorView::UnknownFormat(message).text() == "unknown format: "@ + message,
{
}

} // verus!
