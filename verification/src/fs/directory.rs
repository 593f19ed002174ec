//! Directories of archive files.

use vstd::prelude::*;

use crate::format::era;
use crate::fs::naming;
use crate::fs::naming::ParsedArchiveName;

verus! {

/// A resolved input, either a single file or a directory of archives.
pub enum Input {
    File(String),
    Dir(ArchiveDirectory),
}

/// A scanned directory containing sorted archive files.
pub struct ArchiveDirectory {
    pub path: String,
    /// Sorted list of (era_number, full_path)
    pub files: Vec<(u64, String)>,
}

/// A file in a directory: its name and its full path.
pub struct DirectoryEntry {
    pub name: String,
    pub path: String,
}

/// The archive files among `entries`, with their era numbers.
pub open spec fn archives(entries: Seq<DirectoryEntry>) -> Seq<(u64, Seq<char>)>
    decreases entries.len(),
{
    if entries.len() == 0 {
        Seq::empty()
    } else {
        let front = archives(entries.drop_last());
        match naming::parsed_name(entries.last().name@) {
            Some(p) => front.push((p.era_number, entries.last().path@)),
            None => front,
        }
    }
}

impl ArchiveDirectory {
    /// The files are sorted by era number.
    pub open spec fn wf(self) -> bool {
        naming::in_order(naming::pair_views(self.files@))
    }

    /// Take the archive files out of the entries of a directory and sort them
    /// by era number. There is no directory of archives if there is none.
    pub fn from_entries(path: String, entries: &Vec<DirectoryEntry>) -> (r: Option<Self>)
        ensures
            match r {
                Some(d) => d.wf() && d.path == path && d.files@.len() > 0
                    && naming::stably_sorted(archives(entries@), naming::pair_views(d.files@)),
                None => archives(entries@).len() == 0,
            },
    {
        let mut files: Vec<(u64, String)> = Vec::new();
        let mut i: usize = 0;
        assert(naming::pair_views(files@) =~= archives(entries@.take(0)));
        while i < entries.len()
            invariant
                i <= entries@.len(),
                naming::pair_views(files@) == archives(entries@.take(i as int)),
            decreases entries@.len() - i,
        {
            let ghost before = naming::pair_views(files@);
            assert(entries@.take(i + 1).drop_last() =~= entries@.take(i as int));
            if let Some(parsed) = ParsedArchiveName::parse(entries[i].name.as_str()) {
                files.push((parsed.era_number, entries[i].path.clone()));
                assert(naming::pair_views(files@) =~= before.push(
                    (parsed.era_number, entries@[i as int].path@),
                ));
            }
            i = i + 1;
        }
        assert(entries@.take(i as int) =~= entries@);
        naming::sort_by_number(&mut files);
        if files.len() == 0 {
            return None;
        }
        Some(ArchiveDirectory { path, files })
    }

    /// Find which file contains a given slot, assuming standard 8192 slots per
    /// era. Returns the path to the file; of several files of that era, to one
    /// of them.
    pub fn find_file_for_slot(&self, slot: u64) -> (r: Option<&str>)
        requires
            self.wf(),
        ensures
            match r {
                Some(path) => exists|i: int|
                    0 <= i < self.files@.len() && (#[trigger] self.files@[i]).0 == slot / 8192
                        && self.files@[i].1@ == path@,
                None => forall|i: int|
                    0 <= i < self.files@.len() ==> (#[trigger] self.files@[i]).0 != slot / 8192,
            },
    {
        let era_num: u64 = slot / era::SLOTS_PER_ERA;
        let mut low: usize = 0;
        let mut high: usize = self.files.len();
        while low < high
            invariant
                low <= high <= self.files@.len(),
                self.wf(),
                era_num == slot / 8192,
                forall|i: int| 0 <= i < low ==> (#[trigger] self.files@[i]).0 < era_num,
                forall|i: int|
                    high <= i < self.files@.len() ==> era_num < (#[trigger] self.files@[i]).0,
            decreases high - low,
        {
            let mid: usize = low + (high - low) / 2;
            let num: u64 = self.files[mid].0;
            let ghost views = naming::pair_views(self.files@);
            proof {
                assert(views[mid as int].0 == num);
                assert forall|i: int| 0 <= i < self.files@.len() implies (i <= mid ==> (
                #[trigger] self.files@[i]).0 <= num) && (i >= mid ==> num <= self.files@[i].0) by {
                    assert(views[i].0 == self.files@[i].0);
                }
            }
            if num == era_num {
                return Some(self.files[mid].1.as_str());
            } else if num < era_num {
                low = mid + 1;
            } else {
                high = mid;
            }
        }
        None
    }
}

} // verus!
