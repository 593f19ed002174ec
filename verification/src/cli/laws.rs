//! What the reports of the commands tell.

use vstd::prelude::*;

use crate::cli;
use crate::cli::info;
use crate::cli::info::{DirInfoView, InfoErrorView, InfoResultView};
use crate::format::e2store;
use crate::format::e2store::{EntryView, Header};
use crate::format::era;
use crate::format::laws as layout;
use crate::read::access;
use crate::read::laws as reading;
use crate::write::layout as built;
use crate::write::EraBuilderView;

verus! {

/// A report says that there is a state if and only if one of the headers after
/// the first is of the type of a state. It counts the headers after the first.
pub proof fn state_reported(path: Seq<char>, file_size: u64, data: Seq<u8>)
    requires
        info::info_of(path, file_size, data) is Ok,
    ensures
        ({
            let headers = e2store::stream_headers(data);
            let r = info::info_of(path, file_size, data)->Ok_0;
            &&& r.state_present <==> exists|i: int|
                1 <= i < headers.len() && layout::has_code(
                    (#[trigger] headers[i]).typ,
                    0x02,
                    0x00,
                )
            &&& headers.len() <= usize::MAX ==> r.total_entries == headers.len() - 1
            &&& r.entries == cli::breakdown(headers.skip(1), 10)
        }),
{
    let headers = e2store::stream_headers(data);
    let rest = headers.skip(1);
    if info::has_state(rest) {
        let i = choose|i: int|
            0 <= i < rest.len() && (#[trigger] rest[i]).typ
                == crate::format::types::TYPE_COMPRESSED_BEACON_STATE;
        layout::type_codes(rest[i].typ);
        assert(headers[i + 1] == rest[i]);
    }
    if exists|i: int|
        1 <= i < headers.len() && layout::has_code((#[trigger] headers[i]).typ, 0x02, 0x00) {
        let i = choose|i: int|
            1 <= i < headers.len() && layout::has_code((#[trigger] headers[i]).typ, 0x02, 0x00);
        layout::type_codes(headers[i].typ);
        assert(headers[i] == rest[i - 1]);
    }
}

/// A report about a file that can be read to its end: whether there is a state,
/// how many entries follow the version, and what the format is by the first of
/// them.
pub proof fn report_tells(path: Seq<char>, file_size: u64, data: Seq<u8>)
    requires
        e2store::all_entries_of(data) is Ok,
        data.len() <= usize::MAX,
        info::info_of(path, file_size, data) is Ok,
    ensures
        ({
            let raw = e2store::all_entries_of(data)->Ok_0;
            let r = info::info_of(path, file_size, data)->Ok_0;
            &&& r.path == path
            &&& r.file_size == file_size
            &&& r.state_present <==> exists|i: int|
                1 <= i < raw.len() && layout::has_code((#[trigger] raw[i]).header.typ, 0x02, 0x00)
            &&& r.total_entries == raw.len() - 1
            &&& raw.len() >= 2 && !layout::has_code(raw[1].header.typ, 0x65, 0x32) ==> r.format
                == if reading::tells_era(raw[1].header.typ) {
                "ERA"@
            } else {
                "ERA1"@
            }
        }),
{
    let raw = e2store::all_entries_of(data)->Ok_0;
    let headers = e2store::stream_headers(data);
    e2store::scan_agrees(data);
    state_reported(path, file_size, data);
    lemma_sizes(data);
    assert forall|i: int| 0 <= i < raw.len() implies #[trigger] headers[i] == raw[i].header by {}
    if exists|i: int|
        1 <= i < headers.len() && layout::has_code((#[trigger] headers[i]).typ, 0x02, 0x00) {
        let i = choose|i: int|
            1 <= i < headers.len() && layout::has_code((#[trigger] headers[i]).typ, 0x02, 0x00);
        assert(layout::has_code(raw[i].header.typ, 0x02, 0x00));
    }
    if exists|i: int|
        1 <= i < raw.len() && layout::has_code((#[trigger] raw[i]).header.typ, 0x02, 0x00) {
        let i = choose|i: int|
            1 <= i < raw.len() && layout::has_code((#[trigger] raw[i]).header.typ, 0x02, 0x00);
        assert(layout::has_code(headers[i].typ, 0x02, 0x00));
    }
    if raw.len() >= 2 {
        reading::format_told(data);
    }
}

proof fn lemma_sizes(data: Seq<u8>)
    requires
        data.len() <= usize::MAX,
    ensures
        e2store::stream_entries(data).len() <= usize::MAX,
    decreases data.len(),
{
    e2store::entries_cover_source(data);
    lemma_entry_count(e2store::stream_entries(data));
}

proof fn lemma_entry_count(entries: Seq<EntryView>)
    ensures
        entries.len() <= e2store::file_bytes(entries).len(),
    decreases entries.len(),
{
    if entries.len() > 0 {
        lemma_entry_count(entries.drop_last());
        e2store::lemma_header_len(entries.last().header);
    }
}

/// A report counts the blocks by the index: as many as it has offsets other than
/// 0. The slots go from the first of the index to the last.
pub proof fn report_counts(path: Seq<char>, file_size: u64, data: Seq<u8>, p: int)
    requires
        e2store::all_entries_of(data) is Ok,
        data.len() <= usize::MAX,
        access::index_place(e2store::all_entries_of(data)->Ok_0, p),
        era::slot_index_of(e2store::all_entries_of(data)->Ok_0[p].data) is Ok,
    ensures
        ({
            let idx = era::slot_index_of(e2store::all_entries_of(data)->Ok_0[p].data)->Ok_0;
            let r = info::info_of(path, file_size, data)->Ok_0;
            &&& info::info_of(path, file_size, data) is Ok
            &&& idx.offsets.len() <= usize::MAX ==> r.block_count == idx.offsets.filter(
                |o: i64| o != 0,
            ).len()
            &&& r.starting_slot == idx.starting_slot
            &&& r.slot_range[0] == idx.starting_slot
            &&& idx.offsets.len() == 0 ==> r.slot_range[1] == idx.starting_slot
            &&& idx.offsets.len() > 0 && idx.starting_slot + idx.offsets.len() - 1 <= u64::MAX
                ==> r.slot_range[1] == idx.starting_slot + idx.offsets.len() - 1
        }),
{
    let raw = e2store::all_entries_of(data)->Ok_0;
    let idx = era::slot_index_of(raw[p].data)->Ok_0;
    e2store::scan_agrees(data);
    access::opens_with_index(data, p);
    layout::used_slots_counted(idx.offsets);
    lemma_used_bound(idx.offsets);
}

proof fn lemma_used_bound(offsets: Seq<i64>)
    ensures
        era::used_slots(offsets) <= offsets.len(),
    decreases offsets.len(),
{
    if offsets.len() > 0 {
        lemma_used_bound(offsets.drop_last());
    }
}

/// A report about a file without an index counts no block.
pub proof fn report_without_index(path: Seq<char>, file_size: u64, data: Seq<u8>)
    requires
        e2store::all_entries_of(data) is Ok,
        forall|j: int|
            0 <= j < e2store::all_entries_of(data)->Ok_0.len() ==> !layout::has_code(
                (#[trigger] e2store::all_entries_of(data)->Ok_0[j]).header.typ,
                0x66,
                0x32,
            ) && !layout::has_code(e2store::all_entries_of(data)->Ok_0[j].header.typ, 0x69, 0x32),
    ensures
        info::info_of(path, file_size, data) matches Ok(r) && r.block_count == 0 && r.starting_slot
            == 0 && r.slot_range[0] == 0 && r.slot_range[1] == 0,
{
    e2store::scan_agrees(data);
    access::opens_without_index(data, 0);
}

/// There is no report about a file whose index cannot be decoded, about one that
/// does not start with a version, or about one of less than eight bytes.
pub proof fn no_report(path: Seq<char>, file_size: u64, data: Seq<u8>, p: int)
    ensures
        data.len() < 8 ==> info::info_of(path, file_size, data) == Err::<
            InfoResultView,
            InfoErrorView,
        >(InfoErrorView::Empty),
        data.len() >= 8 && !(data[0] == 0x65 && data[1] == 0x32) ==> info::info_of(
            path,
            file_size,
            data,
        ) is Err,
        e2store::all_entries_of(data) matches Ok(raw) && data.len() <= u64::MAX
            && access::index_place(raw, p) && era::slot_index_of(raw[p].data) is Err
            ==> info::info_of(path, file_size, data) is Err,
{
    layout::header_scanning(data);
    access::opens_after_version(data);
    if e2store::all_entries_of(data) is Ok && data.len() <= u64::MAX && access::index_place(
        e2store::all_entries_of(data)->Ok_0,
        p,
    ) {
        access::opens_with_index(data, p);
    }
}

/// The report about a built file: it is an ERA file if it has a block or a
/// state, its blocks are those that were added, its slots go from the lowest to
/// the highest, and it has a state if and only if one was set.
#[verifier::spinoff_prover]
pub proof fn built_file_reported(path: Seq<char>, file_size: u64, v: EraBuilderView, i: int)
    requires
        v.wf(),
        v.fits(),
        e2store::file_bytes(v.entries()).len() <= usize::MAX,
        e2store::file_bytes(v.entries()).len() <= i64::MAX,
    ensures
        ({
            let r = info::info_of(path, file_size, e2store::file_bytes(v.entries()))->Ok_0;
            let n = v.blocks.len() as int;
            &&& info::info_of(path, file_size, e2store::file_bytes(v.entries())) is Ok
            &&& n > 0 || v.state is Some ==> r.format == "ERA"@
            &&& r.state_present <==> v.state is Some
            &&& r.total_entries == n + (if v.state is Some {
                3int
            } else {
                1
            })
            &&& n == 0 ==> r.slot_range[0] == 0 && r.slot_range[1] == 0
            &&& 0 <= i < n ==> r.slot_range[0] <= v.blocks[i].0 <= r.slot_range[1]
            &&& n > 0 ==> (exists|k: int|
                0 <= k < n && (#[trigger] v.blocks[k]).0 == r.slot_range[0]) && (exists|k: int|
                0 <= k < n && (#[trigger] v.blocks[k]).0 == r.slot_range[1])
        }),
{
    let data = e2store::file_bytes(v.entries());
    let n = v.blocks.len() as int;
    let at = if v.state is Some {
        n + 2
    } else {
        n + 1
    };
    built::built_file_holds(v);
    let raw = e2store::stream_entries(data);
    layout::type_codes(raw[0].header.typ);
    assert(e2store::all_entries_of(data)->Ok_0 == raw);
    assert(access::index_place(raw, at)) by {
        assert forall|j: int| 0 <= j < raw.len() implies !layout::has_code(
            (#[trigger] raw[j]).header.typ,
            0x66,
            0x32,
        ) by {
            if 1 <= j <= n {
                assert(raw[1 + (j - 1)] == raw[j]);
            }
        }
        assert forall|j: int| 0 <= j < at implies !layout::has_code(
            (#[trigger] raw[j]).header.typ,
            0x69,
            0x32,
        ) by {
            if 1 <= j <= n {
                assert(raw[1 + (j - 1)] == raw[j]);
            }
        }
    }
    built::built_block_index(v, i, 0);
    report_counts(path, file_size, data, at);
    report_tells(path, file_size, data);
    if exists|j: int|
        1 <= j < raw.len() && layout::has_code((#[trigger] raw[j]).header.typ, 0x02, 0x00) {
        let j = choose|j: int|
            1 <= j < raw.len() && layout::has_code((#[trigger] raw[j]).header.typ, 0x02, 0x00);
        if j <= n {
            assert(raw[1 + (j - 1)] == raw[j]);
        }
    }
    if v.state is Some {
        assert(layout::has_code(raw[n + 1].header.typ, 0x02, 0x00));
    }
    if n > 0 {
        let zero: int = 0;
        assert(raw[1 + zero] == raw[1]);
    }
}

/// The name of each entry type in the reports.
pub proof fn reported_names(typ: [u8; 2])
    ensures
        ({
            let name = cli::class_name(cli::class_of(typ));
            &&& layout::has_code(typ, 0x07, 0x00) ==> name == "BlockAccumulator"@
            &&& layout::has_code(typ, 0x04, 0x00) ==> name == "BlockBody"@
            &&& layout::has_code(typ, 0x66, 0x32) ==> name == "BlockIndex"@
            &&& layout::has_code(typ, 0x02, 0x00) ==> name == "CompressedBeaconState"@
            &&& layout::has_code(typ, 0x03, 0x00) ==> name == "CompressedHeader"@
            &&& layout::has_code(typ, 0x01, 0x00) ==> name == "CompressedSignedBeaconBlock"@
            &&& layout::has_code(typ, 0x05, 0x00) ==> name == "Receipts"@
            &&& layout::has_code(typ, 0x69, 0x32) ==> name == "SlotIndex"@
            &&& layout::has_code(typ, 0x06, 0x00) ==> name == "TotalDifficulty"@
            &&& layout::has_code(typ, 0x65, 0x32) ==> name == "Version"@
            &&& !(typ[1] == 0x00 && 0x01 <= typ[0] <= 0x07) && !(typ[1] == 0x32 && (0x65 <= typ[0]
                <= 0x66 || typ[0] == 0x69)) ==> name == "Unknown"@
        }),
{
    layout::type_codes(typ);
}

/// Whether a text comes before another in alphabetical order: the first
/// character in which they differ is smaller.
pub open spec fn sorts_before(a: Seq<char>, b: Seq<char>) -> bool {
    exists|n: int|
        0 <= n < a.len() && n < b.len() && a.take(n) == b.take(n) && (#[trigger] a[n]) < b[n]
}

#[verifier::spinoff_prover]
proof fn lemma_names_sorted(i: int, j: int)
    requires
        0 <= i < j < 10,
    ensures
        sorts_before(cli::class_name(i), cli::class_name(j)),
        cli::class_name(i) != cli::class_name(j),
{
    let a = cli::class_name(i);
    let b = cli::class_name(j);
    reveal_strlit("BlockAccumulator");
    reveal_strlit("BlockBody");
    reveal_strlit("BlockIndex");
    reveal_strlit("CompressedBeaconState");
    reveal_strlit("CompressedHeader");
    reveal_strlit("CompressedSignedBeaconBlock");
    reveal_strlit("Receipts");
    reveal_strlit("SlotIndex");
    reveal_strlit("TotalDifficulty");
    reveal_strlit("Unknown");
    if j < 3 {
        assert(a.take(5) =~= b.take(5));
        assert(a[5] < b[5]);
    } else if 3 <= i && j < 6 {
        assert(a.take(10) =~= b.take(10));
        assert(a[10] < b[10]);
    } else {
        assert(a.take(0) =~= b.take(0));
        assert(a[0] < b[0]);
    }
}

/// Whether a header has a name in the reports.
pub open spec fn named(name: Seq<char>) -> spec_fn(Header) -> bool {
    |h: Header| cli::class_name(cli::class_of(h.typ)) == name
}

proof fn lemma_class_count(headers: Seq<Header>, n: int, k: int)
    requires
        0 <= n <= headers.len(),
        0 <= k < 10,
    ensures
        cli::class_count(headers, n, k) == headers.take(n).filter(named(cli::class_name(k))).len(),
        cli::class_count(headers, n, k) <= n,
    decreases n,
{
    if n > 0 {
        lemma_class_count(headers, n - 1, k);
        let before = headers.take(n - 1);
        let h = headers[n - 1];
        let c = cli::class_of(h.typ);
        before.lemma_filter_push(h, named(cli::class_name(k)));
        assert(before.push(h) =~= headers.take(n));
        assert(c == 10 ==> cli::class_name(c) != cli::class_name(k)) by {
            lemma_version_named(k);
        }
        if c < k {
            lemma_names_sorted(c, k);
        } else if k < c < 10 {
            lemma_names_sorted(k, c);
        }
    } else {
        reveal(Seq::filter);
        assert(headers.take(n) =~= Seq::empty());
    }
}

#[verifier::spinoff_prover]
proof fn lemma_version_named(k: int)
    requires
        0 <= k < 10,
    ensures
        cli::class_name(10) != cli::class_name(k),
{
    reveal_strlit("Version");
    reveal_strlit("BlockAccumulator");
    reveal_strlit("BlockBody");
    reveal_strlit("BlockIndex");
    reveal_strlit("CompressedBeaconState");
    reveal_strlit("CompressedHeader");
    reveal_strlit("CompressedSignedBeaconBlock");
    reveal_strlit("Receipts");
    reveal_strlit("SlotIndex");
    reveal_strlit("TotalDifficulty");
    reveal_strlit("Unknown");
    assert(cli::class_name(10)[0] == 'V');
    assert(cli::class_name(k)[0] != 'V');
}

/// The names up to the place `k`.
proof fn lemma_breakdown(headers: Seq<Header>, k: int)
    requires
        0 <= k <= 10,
        headers.len() <= usize::MAX,
    ensures
        ({
            let counts = cli::breakdown(headers, k);
            &&& forall|i: int|
                0 <= i < counts.len() ==> (#[trigger] counts[i]).1 > 0 && counts[i].1
                    == headers.filter(named(counts[i].0)).len()
            &&& forall|i: int|
                0 <= i < counts.len() ==> exists|c: int|
                    0 <= c < k && (#[trigger] counts[i]).0 == #[trigger] cli::class_name(c)
            &&& forall|i: int, j: int|
                0 <= i < j < counts.len() ==> sorts_before(
                    (#[trigger] counts[i]).0,
                    (#[trigger] counts[j]).0,
                )
            &&& forall|c: int|
                0 <= c < k && headers.filter(named(#[trigger] cli::class_name(c))).len() > 0
                    ==> exists|i: int|
                    0 <= i < counts.len() && (#[trigger] counts[i]).0 == cli::class_name(c)
        }),
    decreases k,
{
    if k > 0 {
        let m = k - 1;
        lemma_breakdown(headers, m);
        lemma_class_count(headers, headers.len() as int, m);
        assert(headers.take(headers.len() as int) =~= headers);
        let before = cli::breakdown(headers, m);
        let counts = cli::breakdown(headers, k);
        let n = before.len() as int;
        assert forall|i: int| 0 <= i < n implies #[trigger] counts[i] == before[i] by {}
        assert forall|i: int| 0 <= i < counts.len() implies exists|c: int|
            0 <= c < k && (#[trigger] counts[i]).0 == #[trigger] cli::class_name(c) by {
            if i < n {
                let c = choose|c: int|
                    0 <= c < m && before[i].0 == #[trigger] cli::class_name(c);
                assert(counts[i].0 == cli::class_name(c));
            } else {
                assert(counts[i].0 == cli::class_name(m));
            }
        }
        assert forall|i: int, j: int| 0 <= i < j < counts.len() implies sorts_before(
            (#[trigger] counts[i]).0,
            (#[trigger] counts[j]).0,
        ) by {
            if j == n {
                let c = choose|c: int|
                    0 <= c < m && before[i].0 == #[trigger] cli::class_name(c);
                lemma_names_sorted(c, m);
            } else {
                assert(sorts_before(before[i].0, before[j].0));
            }
        }
        assert forall|c: int|
            0 <= c < k && headers.filter(named(#[trigger] cli::class_name(c))).len()
                > 0 implies exists|i: int|
            0 <= i < counts.len() && (#[trigger] counts[i]).0 == cli::class_name(c) by {
            if c < m {
                let i = choose|i: int|
                    0 <= i < before.len() && (#[trigger] before[i]).0 == cli::class_name(c);
                assert(counts[i].0 == cli::class_name(c));
            } else {
                assert(counts[n].0 == cli::class_name(c));
            }
        }
    }
}

/// The breakdown lists each name that a header has, the version aside, and how
/// many headers have it. The names are in alphabetical order.
pub proof fn breakdown_counts(headers: Seq<Header>, h: int)
    requires
        headers.len() <= usize::MAX,
    ensures
        ({
            let counts = cli::breakdown(headers, 10);
            &&& forall|i: int|
                0 <= i < counts.len() ==> (#[trigger] counts[i]).1 > 0 && counts[i].1
                    == headers.filter(named(counts[i].0)).len() && counts[i].0 != "Version"@
            &&& forall|i: int, j: int|
                0 <= i < j < counts.len() ==> sorts_before(
                    (#[trigger] counts[i]).0,
                    (#[trigger] counts[j]).0,
                )
            &&& 0 <= h < headers.len() && !layout::has_code(headers[h].typ, 0x65, 0x32)
                ==> exists|i: int|
                0 <= i < counts.len() && named((#[trigger] counts[i]).0)(headers[h])
        }),
{
    let counts = cli::breakdown(headers, 10);
    lemma_breakdown(headers, 10);
    assert forall|i: int| 0 <= i < counts.len() implies (#[trigger] counts[i]).0 != "Version"@ by {
        let c = choose|c: int| 0 <= c < 10 && counts[i].0 == #[trigger] cli::class_name(c);
        lemma_version_named(c);
    }
    if 0 <= h < headers.len() && !layout::has_code(headers[h].typ, 0x65, 0x32) {
        layout::type_codes(headers[h].typ);
        let c = cli::class_of(headers[h].typ);
        let name = cli::class_name(c);
        broadcast use vstd::seq_lib::group_filter_ensures;

        assert(named(name)(headers[h]));
        assert(headers.filter(named(name)).contains(headers[h]));
        assert(headers.filter(named(name)).len() > 0);
        let i = choose|i: int|
            0 <= i < counts.len() && (#[trigger] counts[i]).0 == cli::class_name(c);
        assert(named(counts[i].0)(headers[h]));
    }
}

/// A file of a directory: its size, and the report about it if there is one.
pub struct DirFile {
    pub size: u64,
    pub info: Option<InfoResultView>,
}

/// The sums of a directory after its files.
pub open spec fn dir_sums(files: Seq<DirFile>) -> DirInfoView
    decreases files.len(),
{
    if files.len() == 0 {
        DirInfoView::start()
    } else {
        dir_sums(files.drop_last()).with(files.last().size, files.last().info)
    }
}

/// The bytes of some files.
pub open spec fn size_sum(files: Seq<DirFile>) -> nat
    decreases files.len(),
{
    if files.len() == 0 {
        0
    } else {
        size_sum(files.drop_last()) + files.last().size as nat
    }
}

/// The blocks of some files.
pub open spec fn block_sum(reports: Seq<InfoResultView>) -> nat
    decreases reports.len(),
{
    if reports.len() == 0 {
        0
    } else {
        block_sum(reports.drop_last()) + reports.last().block_count as nat
    }
}

/// The reports about some files.
pub open spec fn reports_of(files: Seq<DirFile>) -> Seq<InfoResultView> {
    files.filter(reported()).map_values(|f: DirFile| f.info->Some_0)
}

/// Whether there is a report about a file.
pub open spec fn reported() -> spec_fn(DirFile) -> bool {
    |f: DirFile| f.info is Some
}

/// Whether a file has a state.
pub open spec fn with_state() -> spec_fn(InfoResultView) -> bool {
    |r: InfoResultView| r.state_present
}

proof fn lemma_reports_push(files: Seq<DirFile>)
    requires
        files.len() > 0,
    ensures
        reports_of(files) == match files.last().info {
            Some(info) => reports_of(files.drop_last()).push(info),
            None => reports_of(files.drop_last()),
        },
{
    let front = files.drop_last();
    front.lemma_filter_push(files.last(), reported());
    assert(front.push(files.last()) =~= files);
    match files.last().info {
        Some(info) => {
            assert(reports_of(files) =~= reports_of(front).push(info));
        },
        None => {},
    }
}

/// The report about a directory holds the reports about its files in order. It
/// adds up the sizes of all files, the blocks and the states, and its slots go
/// from the lowest to the highest of any file.
pub proof fn directory_reported(path: Seq<char>, files: Seq<DirFile>)
    requires
        size_sum(files) <= u64::MAX,
        block_sum(reports_of(files)) <= usize::MAX,
        files.len() <= usize::MAX,
    ensures
        ({
            let r = dir_sums(files).report(path);
            let reports = reports_of(files);
            &&& r.path == path
            &&& r.files == reports
            &&& r.file_count == reports.len()
            &&& r.total_size == size_sum(files)
            &&& r.total_blocks == block_sum(reports)
            &&& r.states_present == reports.filter(with_state()).len()
            &&& reports.len() == 0 ==> r.slot_range[0] == 0 && r.slot_range[1] == 0
            &&& forall|i: int|
                0 <= i < reports.len() && (#[trigger] reports[i]).slot_range[0] < u64::MAX
                    ==> r.slot_range[0] <= reports[i].slot_range[0]
            &&& forall|i: int|
                0 <= i < reports.len() ==> (#[trigger] reports[i]).slot_range[1] <= r.slot_range[1]
            &&& (exists|i: int|
                0 <= i < reports.len() && (#[trigger] reports[i]).slot_range[0] < u64::MAX)
                ==> exists|i: int|
                0 <= i < reports.len() && (#[trigger] reports[i]).slot_range[0] == r.slot_range[0]
            &&& reports.len() > 0 ==> exists|i: int|
                0 <= i < reports.len() && (#[trigger] reports[i]).slot_range[1] == r.slot_range[1]
        }),
{
    lemma_dir_sums(files);
    let reports = reports_of(files);
    if exists|i: int|
        0 <= i < reports.len() && (#[trigger] reports[i]).slot_range[0] < u64::MAX {
        let k = choose|i: int|
            0 <= i < reports.len() && (#[trigger] reports[i]).slot_range[0] < u64::MAX;
        assert(dir_sums(files).min_slot <= reports[k].slot_range[0]);
    }
}

#[verifier::spinoff_prover]
proof fn lemma_dir_sums(files: Seq<DirFile>)
    requires
        size_sum(files) <= u64::MAX,
        block_sum(reports_of(files)) <= usize::MAX,
        files.len() <= usize::MAX,
    ensures
        ({
            let v = dir_sums(files);
            let reports = reports_of(files);
            &&& v.files == reports
            &&& reports.len() <= files.len()
            &&& v.total_size == size_sum(files)
            &&& v.total_blocks == block_sum(reports)
            &&& v.states_present == reports.filter(with_state()).len()
            &&& reports.filter(with_state()).len() <= reports.len()
            &&& reports.len() == 0 ==> v.min_slot == u64::MAX && v.max_slot == 0
            &&& forall|i: int|
                0 <= i < reports.len() ==> v.min_slot <= (#[trigger] reports[i]).slot_range[0]
                    && reports[i].slot_range[1] <= v.max_slot
            &&& v.min_slot < u64::MAX ==> exists|i: int|
                0 <= i < reports.len() && (#[trigger] reports[i]).slot_range[0] == v.min_slot
            &&& reports.len() > 0 ==> exists|i: int|
                0 <= i < reports.len() && (#[trigger] reports[i]).slot_range[1] == v.max_slot
        }),
    decreases files.len(),
{
    let reports = reports_of(files);
    if files.len() == 0 {
        reveal(Seq::filter);
        assert(files.filter(reported()).len() == 0);
        assert(reports =~= Seq::empty());
    } else {
        let front = files.drop_last();
        let before = reports_of(front);
        lemma_reports_push(files);
        if files.last().info is Some {
            assert(reports.drop_last() =~= before);
        }
        lemma_dir_sums(front);
        let v = dir_sums(front);
        let w = dir_sums(files);
        match files.last().info {
            None => {},
            Some(info) => {
                before.lemma_filter_push(info, with_state());
                let n = before.len() as int;
                assert(reports[n] == info);
                assert forall|i: int| 0 <= i < n implies #[trigger] reports[i] == before[i] by {}
                assert forall|i: int| 0 <= i < reports.len() implies w.min_slot <= (
                #[trigger] reports[i]).slot_range[0] && reports[i].slot_range[1] <= w.max_slot by {
                    if i < n {
                        assert(v.min_slot <= before[i].slot_range[0]);
                    }
                }
                if w.min_slot < u64::MAX {
                    if w.min_slot == info.slot_range[0] {
                        assert(reports[n].slot_range[0] == w.min_slot);
                    } else {
                        let k = choose|i: int|
                            0 <= i < before.len() && (#[trigger] before[i]).slot_range[0]
                                == v.min_slot;
                        assert(reports[k].slot_range[0] == w.min_slot);
                    }
                }
                if w.max_slot == info.slot_range[1] {
                    assert(reports[n].slot_range[1] == w.max_slot);
                } else if n > 0 {
                    let k = choose|i: int|
                        0 <= i < before.len() && (#[trigger] before[i]).slot_range[1] == v.max_slot;
                    assert(reports[k].slot_range[1] == w.max_slot);
                }
            },
        }
    }
}

/// A file of a directory has a report if and only if it can be read and there is
/// one about its content, and it is that.
pub proof fn directory_file_reported(name: Seq<char>, file_size: u64, data: Seq<u8>)
    ensures
        info::dir_file_info(name, file_size, None) is None,
        match info::info_of(name, file_size, data) {
            Ok(r) => info::dir_file_info(name, file_size, Some(data)) == Some(r),
            Err(_) => info::dir_file_info(name, file_size, Some(data)) is None,
        },
{
}

} // verus!
