//! What the `convert` commands report.

use vstd::prelude::*;

use crate::cli;
use crate::convert::strip::StripConfig;
use crate::text;

verus! {

/// The report on a file that has been reindexed.
pub open spec fn reindexed_text(output_size: u64) -> Seq<char> {
    "Reindexed successfully\n  output: "@ + cli::size_text(output_size) + " ("@ + text::dec(
        output_size as nat,
    ) + ")\n"@
}

/// The report on a file that has been reindexed.
pub fn reindexed_report(output_size: u64) -> (s: String)
    ensures
        s@ == reindexed_text(output_size),
{
    let mut s = "Reindexed successfully\n  output: ".to_owned();
    s.append(cli::human_size(output_size).as_str());
    s.append(" (");
    text::push_dec(&mut s, output_size);
    s.append(")\n");
    s
}

/// The report on a file that has been stripped. `percent` is the share of the
/// file that this has saved.
pub open spec fn stripped_text(output_size: u64, saved: u64, percent: Seq<char>) -> Seq<char> {
    "Stripped successfully\n  output: "@ + cli::size_text(output_size) + " ("@ + text::dec(
        output_size as nat,
    ) + ")\n  saved:  "@ + cli::size_text(saved) + " ("@ + percent + "%)\n"@
}

/// The report on a file that has been stripped. `percent` is the share of the
/// file that this has saved.
pub fn stripped_report(output_size: u64, saved: u64, percent: &str) -> (s: String)
    ensures
        s@ == stripped_text(output_size, saved, percent@),
{
    let mut s = "Stripped successfully\n  output: ".to_owned();
    s.append(cli::human_size(output_size).as_str());
    s.append(" (");
    text::push_dec(&mut s, output_size);
    s.append(")\n  saved:  ");
    s.append(cli::human_size(saved).as_str());
    s.append(" (");
    s.append(percent);
    s.append("%)\n");
    s
}

/// The report on a file that has been split.
pub open spec fn split_text(blocks: u64, output_dir: Seq<char>) -> Seq<char> {
    "Split "@ + text::dec(blocks as nat) + " blocks to "@ + output_dir + "\n"@
}

/// The report on a file that has been split.
pub fn split_report(blocks: u64, output_dir: &str) -> (s: String)
    ensures
        s@ == split_text(blocks, output_dir@),
{
    let mut s = "Split ".to_owned();
    text::push_dec(&mut s, blocks);
    s.append(" blocks to ");
    s.append(output_dir);
    s.append("\n");
    s
}

/// Check that there is something to strip.
pub fn check_strip(config: &StripConfig) -> (r: Result<(), String>)
    ensures
        match r {
            Ok(()) => *config != StripConfig::nothing(),
            Err(message) => *config == StripConfig::nothing() && message@
                == "no strip options selected (use --strip-receipts, etc.)"@,
        },
{
    if !config.receipts && !config.bodies && !config.total_difficulty && !config.state
        && !config.accumulator {
        Err("no strip options selected (use --strip-receipts, etc.)".to_owned())
    } else {
        Ok(())
    }
}

/// How many bytes stripping has saved.
pub open spec fn saved(input_size: u64, output_size: u64) -> int {
    if input_size > output_size {
        input_size - output_size
    } else {
        0
    }
}

/// How many bytes stripping has saved.
pub fn saved_size(input_size: u64, output_size: u64) -> (n: u64)
    ensures
        n == saved(input_size, output_size),
        n == if input_size > output_size {
            input_size - output_size
        } else {
            0
        },
{
    if input_size > output_size {
        input_size - output_size
    } else {
        0
    }
}

} // verus!
