//! What the `build` command does with file names, and what it reports.

use vstd::prelude::*;

use crate::cli;
use crate::fs::directory::DirectoryEntry;
use crate::fs::naming;
use crate::text;

verus! {

/// What has been built.
#[derive(Debug, Clone)]
pub struct BuildResult {
    pub block_count: usize,
    pub state_included: bool,
    pub output_size: u64,
    pub output_size_human: String,
}

impl BuildResult {
    /// The report as text.
    pub open spec fn text(self) -> Seq<char> {
        "Built "@ + text::dec(self.block_count as nat) + " blocks\n"@ + (if self.state_included {
            "State: included\n"@
        } else {
            "State: not included\n"@
        }) + "Output: "@ + self.output_size_human@ + " ("@ + text::dec(self.output_size as nat)
            + ")\n"@
    }

    pub fn new(block_count: usize, state_included: bool, output_size: u64) -> (r: Self)
        ensures
            r.block_count == block_count,
            r.state_included == state_included,
            r.output_size == output_size,
            r.output_size_human@ == cli::size_text(output_size),
    {
        BuildResult {
            block_count,
            state_included,
            output_size,
            output_size_human: cli::human_size(output_size),
        }
    }

    /// The report as text.
    pub fn to_string(&self) -> (s: String)
        ensures
            s@ == self.text(),
    {
        let mut s = "Built ".to_owned();
        text::push_dec(&mut s, self.block_count as u64);
        s.append(" blocks\n");
        s.append(
            if self.state_included {
                "State: included\n"
            } else {
                "State: not included\n"
            },
        );
        s.append("Output: ");
        s.append(self.output_size_human.as_str());
        s.append(" (");
        text::push_dec(&mut s, self.output_size);
        s.append(")\n");
        s
    }
}

/// Why the files of a directory cannot be built into an archive.
#[derive(Debug, Clone)]
pub enum BuildError {
    /// The name of a file is no slot number.
    BadName(String),
    /// There are no files.
    NoFiles,
    /// Two files have the same slot.
    Duplicate(u64),
}

/// What the names of the files say: their slots, or which name is no slot
/// number. Files that are no `.snappy` files do not count.
pub open spec fn named_slots(entries: Seq<DirectoryEntry>) -> Result<
    Seq<(u64, Seq<char>)>,
    Seq<char>,
>
    decreases entries.len(),
{
    if entries.len() == 0 {
        Ok(Seq::empty())
    } else {
        let e = entries.last();
        match named_slots(entries.drop_last()) {
            Err(name) => Err(name),
            Ok(front) => if naming::ends_with(e.name@, ".snappy"@) {
                match naming::numeral(e.name@.take(e.name@.len() - 7)) {
                    Some(slot) => Ok(front.push((slot, e.path@))),
                    None => Err(e.name@),
                }
            } else {
                Ok(front)
            },
        }
    }
}

/// Whether no number occurs twice in a sorted list.
pub open spec fn no_repeats(files: Seq<(u64, Seq<char>)>) -> bool {
    forall|i: int, j: int| 0 <= i < j < files.len() ==> (#[trigger] files[i]).0 < (
    #[trigger] files[j]).0
}

/// Parse slot numbers from filenames, and sort the files by slot. The expected
/// names are `{slot}.snappy`.
pub fn slot_files(entries: &Vec<DirectoryEntry>) -> (r: Result<Vec<(u64, String)>, BuildError>)
    ensures
        match r {
            Ok(files) => named_slots(entries@) matches Ok(named) && named.len() > 0
                && naming::stably_sorted(named, naming::pair_views(files@)) && no_repeats(
                naming::pair_views(files@),
            ),
            Err(BuildError::BadName(name)) => named_slots(entries@) == Err::<
                Seq<(u64, Seq<char>)>,
                Seq<char>,
            >(name@),
            Err(BuildError::NoFiles) => named_slots(entries@) matches Ok(named) && named.len() == 0,
            Err(BuildError::Duplicate(slot)) => named_slots(entries@) matches Ok(named) && {
                exists|files: Seq<(u64, Seq<char>)>, i: int|
                    #![trigger naming::stably_sorted(named, files), files[i]]
                    naming::stably_sorted(named, files) && 0 <= i < files.len() - 1 && files[i].0
                        == slot && files[i + 1].0 == slot && no_repeats(files.take(i + 1))
            },
        },
{
    proof {
        reveal_strlit(".snappy");
    }
    let suffix = text::chars_of(".snappy");
    let mut files: Vec<(u64, String)> = Vec::new();
    let mut i: usize = 0;
    assert(entries@.take(0) =~= Seq::empty());
    assert(naming::pair_views(files@) =~= Seq::empty());
    while i < entries.len()
        invariant
            i <= entries@.len(),
            suffix@ == ".snappy"@,
            suffix@.len() == 7,
            named_slots(entries@.take(i as int)) == Ok::<Seq<(u64, Seq<char>)>, Seq<char>>(
                naming::pair_views(files@),
            ),
        decreases entries@.len() - i,
    {
        let ghost before = naming::pair_views(files@);
        let ghost front = entries@.take(i as int);
        assert(entries@.take(i + 1).drop_last() =~= front);
        let name = text::chars_of(entries[i].name.as_str());
        if naming::tail_is(&name, &suffix) {
            let len: usize = name.len() - 7;
            assert(name@.subrange(0, len as int) =~= name@.take(len as int));
            match naming::parse_numeral(&name, 0, len) {
                Some(slot) => {
                    files.push((slot, entries[i].path.clone()));
                    assert(naming::pair_views(files@) =~= before.push(
                        (slot, entries@[i as int].path@),
                    ));
                },
                None => {
                    proof {
                        lemma_bad_name(entries@, i + 1);
                    }
                    return Err(BuildError::BadName(entries[i].name.clone()));
                },
            }
        }
        i = i + 1;
    }
    assert(entries@.take(i as int) =~= entries@);
    if files.len() == 0 {
        return Err(BuildError::NoFiles);
    }
    let ghost named = naming::pair_views(files@);
    naming::sort_by_number(&mut files);
    let ghost sorted = naming::pair_views(files@);
    let mut k: usize = 1;
    while k < files.len()
        invariant
            1 <= k <= files@.len(),
            named_slots(entries@) == Ok::<Seq<(u64, Seq<char>)>, Seq<char>>(named),
            sorted == naming::pair_views(files@),
            naming::stably_sorted(named, sorted),
            forall|a: int, b: int|
                0 <= a < b < k ==> (#[trigger] sorted[a]).0 < (#[trigger] sorted[b]).0,
        decreases files@.len() - k,
    {
        proof {
            assert(sorted[k - 1].0 == files@[k - 1].0);
            assert(sorted[k as int].0 == files@[k as int].0);
            assert(sorted[k - 1].0 <= sorted[k as int].0);
        }
        if files[k - 1].0 == files[k].0 {
            proof {
                let n = k - 1;
                let first = sorted.take(n + 1);
                assert forall|a: int, b: int| 0 <= a < b < first.len() implies (
                #[trigger] first[a]).0 < (#[trigger] first[b]).0 by {
                    assert(first[a] == sorted[a]);
                    assert(first[b] == sorted[b]);
                }
                assert(no_repeats(first));
                assert(sorted[n].0 == files@[k - 1].0 && sorted[n + 1].0 == files@[k - 1].0);
            }
            return Err(BuildError::Duplicate(files[k - 1].0));
        }
        proof {
            assert forall|a: int, b: int| 0 <= a < b < k + 1 implies (#[trigger] sorted[a]).0 < (
            #[trigger] sorted[b]).0 by {
                if b == k {
                    assert(sorted[a].0 <= sorted[k - 1].0);
                }
            }
        }
        k = k + 1;
    }
    Ok(files)
}

/// A name that is no slot number is not made good by later ones.
proof fn lemma_bad_name(entries: Seq<DirectoryEntry>, n: int)
    requires
        0 <= n <= entries.len(),
        named_slots(entries.take(n)) is Err,
    ensures
        named_slots(entries) == named_slots(entries.take(n)),
    decreases entries.len(),
{
    if n < entries.len() {
        assert(entries.drop_last().take(n) =~= entries.take(n));
        lemma_bad_name(entries.drop_last(), n);
    } else {
        assert(entries.take(n) =~= entries);
    }
}

/// Check that a state file and its slot are given together, and say whether
/// they are.
pub fn check_state_options(state_given: bool, state_slot: Option<u64>) -> (r: Result<
    Option<u64>,
    String,
>)
    ensures
        match r {
            Ok(slot) => state_given == (state_slot is Some) && slot == state_slot,
            Err(message) => state_given != (state_slot is Some) && message@
                == "both --state and --state-slot are required together"@,
        },
{
    if state_given == state_slot.is_some() {
        Ok(state_slot)
    } else {
        Err("both --state and --state-slot are required together".to_owned())
    }
}

} // verus!
