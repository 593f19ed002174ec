//! How verification names what is wrong with a file, and what is odd about it.

use vstd::prelude::*;

use crate::format::e2store;
use crate::format::e2store::EntryView;
use crate::format::era;
use crate::format::laws as layout;
use crate::text;
use crate::verify;
use crate::verify::scan;
use crate::verify::validity;

verus! {

/// What the pass has found stays found.
proof fn lemma_found(raw: Seq<EntryView>, a: int, b: int, t: Seq<char>)
    requires
        1 <= a <= b <= raw.len() <= usize::MAX,
        e2store::file_bytes(raw).len() <= u64::MAX,
    ensures
        validity::pass(raw, a).errors.contains(t) ==> validity::pass(raw, b).errors.contains(t),
        validity::pass(raw, a).warnings.contains(t) ==> validity::pass(raw, b).warnings.contains(t),
    decreases b - a,
{
    if a < b {
        let m = b - 1;
        lemma_found(raw, a, m, t);
        validity::lemma_step(raw, m);
        let v = validity::pass(raw, m);
        let w = validity::pass(raw, b);
        if v.errors.contains(t) {
            let k = choose|k: int| 0 <= k < v.errors.len() && v.errors[k] == t;
            assert(w.errors.len() >= v.errors.len() && w.errors[k] == v.errors[k]);
        }
        if v.warnings.contains(t) {
            let k = choose|k: int| 0 <= k < v.warnings.len() && v.warnings[k] == t;
            assert(w.warnings.len() >= v.warnings.len() && w.warnings[k] == v.warnings[k]);
        }
    }
}

/// What the pass has found is in the result.
proof fn lemma_in_result(data: Seq<u8>, a: int, t: Seq<char>)
    requires
        e2store::all_entries_of(data) is Ok,
        data.len() <= usize::MAX,
        1 <= a <= e2store::all_entries_of(data)->Ok_0.len(),
    ensures
        ({
            let raw = e2store::all_entries_of(data)->Ok_0;
            let r = verify::verification_of(data);
            &&& validity::pass(raw, a).errors.contains(t) ==> r.errors.contains(t)
            &&& validity::pass(raw, a).warnings.contains(t) ==> r.warnings.contains(t)
        }),
{
    let raw = e2store::all_entries_of(data)->Ok_0;
    let n = raw.len() as int;
    validity::lemma_sizes(data);
    layout::type_codes(raw[0].header.typ);
    lemma_found(raw, a, n, t);
    let v = validity::pass(raw, n);
    let r = verify::verification_of(data);
    assert(r.errors == verify::all_errors(raw, v));
    assert(r.warnings == verify::all_warnings(v));
    if v.errors.contains(t) {
        let k = choose|k: int| 0 <= k < v.errors.len() && v.errors[k] == t;
        assert(r.errors[k] == t);
    }
    if v.warnings.contains(t) {
        let k = choose|k: int| 0 <= k < v.warnings.len() && v.warnings[k] == t;
        assert(r.warnings[k] == t);
    }
}

/// A message at the end of a list is in it.
proof fn lemma_last_in(front: Seq<Seq<char>>, t: Seq<char>)
    ensures
        (front + seq![t]).contains(t),
{
    assert((front + seq![t])[front.len() as int] == t);
}

/// Where the data of an entry does not decompress, the errors name the entry by
/// its number, and what it is.
#[verifier::spinoff_prover]
pub proof fn undecompressed_named(data: Seq<u8>, i: int)
    requires
        e2store::all_entries_of(data) is Ok,
        data.len() <= usize::MAX,
        1 <= i < e2store::all_entries_of(data)->Ok_0.len(),
        era::snappy_decoded(e2store::all_entries_of(data)->Ok_0[i].data) is Err,
    ensures
        ({
            let e = e2store::all_entries_of(data)->Ok_0[i];
            let errors = verify::verification_of(data).errors;
            let why = era::payload_of(era::snappy_decoded(e.data))->Err_0.text();
            &&& validity::is_of(e, 0x01, 0x00) ==> errors.contains(
                "entry "@ + text::dec(i as nat) + ": "@ + ("beacon block decompression failed: "@
                    + why),
            )
            &&& validity::is_of(e, 0x02, 0x00) ==> errors.contains(
                "entry "@ + text::dec(i as nat) + ": "@ + ("beacon state decompression failed: "@
                    + why),
            )
            &&& validity::is_of(e, 0x03, 0x00) ==> errors.contains(
                "entry "@ + text::dec(i as nat) + ": "@ + ("header decompression failed: "@ + why),
            )
        }),
{
    let raw = e2store::all_entries_of(data)->Ok_0;
    let e = raw[i];
    validity::lemma_sizes(data);
    validity::lemma_step(raw, i);
    layout::type_codes(e.header.typ);
    let why = era::payload_of(era::snappy_decoded(e.data))->Err_0.text();
    let v = validity::pass(raw, i);
    if validity::is_of(e, 0x01, 0x00) {
        let t = scan::at_entry(i, "beacon block decompression failed: "@ + why);
        lemma_last_in(v.errors, t);
        lemma_in_result(data, i + 1, t);
    } else if validity::is_of(e, 0x02, 0x00) {
        let t = scan::at_entry(i, "beacon state decompression failed: "@ + why);
        lemma_last_in(v.errors, t);
        lemma_in_result(data, i + 1, t);
    } else if validity::is_of(e, 0x03, 0x00) {
        let t = scan::at_entry(i, "header decompression failed: "@ + why);
        lemma_last_in(v.errors + scan::incomplete(i, v.group), t);
        lemma_in_result(data, i + 1, t);
    }
}

/// An index that cannot be decoded is named, and so is a total difficulty or an
/// accumulator that has not 32 bytes.
#[verifier::spinoff_prover]
pub proof fn malformed_named(data: Seq<u8>, i: int)
    requires
        e2store::all_entries_of(data) is Ok,
        data.len() <= usize::MAX,
        1 <= i < e2store::all_entries_of(data)->Ok_0.len(),
    ensures
        ({
            let e = e2store::all_entries_of(data)->Ok_0[i];
            let errors = verify::verification_of(data).errors;
            &&& validity::is_of(e, 0x66, 0x32) && era::slot_index_of(e.data) is Err
                ==> errors.contains(
                "entry "@ + text::dec(i as nat) + ": "@ + ("invalid block index: "@
                    + era::slot_index_of(e.data)->Err_0),
            )
            &&& validity::is_of(e, 0x33, 0x00) && era::slot_index_of(e.data) is Err
                ==> errors.contains(
                "entry "@ + text::dec(i as nat) + ": "@ + ("invalid state index: "@
                    + era::slot_index_of(e.data)->Err_0),
            )
            &&& validity::is_of(e, 0x06, 0x00) && e.data.len() != 32 ==> errors.contains(
                "entry "@ + text::dec(i as nat) + ": "@ + ("TotalDifficulty"@
                    + " must be 32 bytes, got "@ + text::dec(e.data.len())),
            )
            &&& validity::is_of(e, 0x07, 0x00) && e.data.len() != 32 ==> errors.contains(
                "entry "@ + text::dec(i as nat) + ": "@ + ("BlockAccumulator"@
                    + " must be 32 bytes, got "@ + text::dec(e.data.len())),
            )
        }),
{
    let raw = e2store::all_entries_of(data)->Ok_0;
    let e = raw[i];
    validity::lemma_sizes(data);
    validity::lemma_step(raw, i);
    layout::type_codes(e.header.typ);
    let v = validity::pass(raw, i);
    if validity::is_of(e, 0x66, 0x32) && era::slot_index_of(e.data) is Err {
        let t = scan::at_entry(i, "invalid block index: "@ + era::slot_index_of(e.data)->Err_0);
        lemma_last_in(v.errors, t);
        lemma_in_result(data, i + 1, t);
    } else if validity::is_of(e, 0x33, 0x00) && era::slot_index_of(e.data) is Err {
        let t = scan::at_entry(i, "invalid state index: "@ + era::slot_index_of(e.data)->Err_0);
        lemma_last_in(v.errors, t);
        lemma_in_result(data, i + 1, t);
    } else if validity::is_of(e, 0x06, 0x00) && e.data.len() != 32 {
        let t = scan::at_entry(
            i,
            "TotalDifficulty"@ + " must be 32 bytes, got "@ + text::dec(e.data.len()),
        );
        lemma_last_in(v.errors, t);
        lemma_in_result(data, i + 1, t);
    } else if validity::is_of(e, 0x07, 0x00) && e.data.len() != 32 {
        let t = scan::at_entry(
            i,
            "BlockAccumulator"@ + " must be 32 bytes, got "@ + text::dec(e.data.len()),
        );
        lemma_last_in(v.errors, t);
        lemma_in_result(data, i + 1, t);
    }
}

/// The parts that the block with the header at `h` lacks below `n`.
pub open spec fn lacking(raw: Seq<EntryView>, h: int, n: int) -> Seq<char> {
    let body = validity::followed_by(raw, h, 0x04, n);
    let td = validity::followed_by(raw, h, 0x06, n);
    if body {
        "TotalDifficulty"@
    } else if td {
        "BlockBody"@
    } else {
        "BlockBody, TotalDifficulty"@
    }
}

/// A block that lacks its body or its total difficulty is named where the next
/// header comes: by that entry, by its own, and by what it lacks.
pub proof fn incomplete_block_named(data: Seq<u8>, h: int, i: int)
    requires
        e2store::all_entries_of(data) is Ok,
        data.len() <= usize::MAX,
        1 <= h < i < e2store::all_entries_of(data)->Ok_0.len(),
        ({
            let raw = e2store::all_entries_of(data)->Ok_0;
            &&& validity::is_of(raw[h], 0x03, 0x00)
            &&& validity::is_of(raw[i], 0x03, 0x00)
            &&& forall|j: int| h < j < i ==> !validity::is_of(#[trigger] raw[j], 0x03, 0x00)
            &&& !(validity::followed_by(raw, h, 0x04, i) && validity::followed_by(raw, h, 0x06, i))
        }),
    ensures
        verify::verification_of(data).errors.contains(
            "entry "@ + text::dec(i as nat) + ": "@ + ("incomplete ERA1 block starting at entry "@
                + text::dec(h as nat) + " (missing: "@ + lacking(
                e2store::all_entries_of(data)->Ok_0,
                h,
                i,
            ) + ")"@),
        ),
{
    let raw = e2store::all_entries_of(data)->Ok_0;
    validity::lemma_sizes(data);
    validity::lemma_step(raw, i);
    validity::lemma_group(raw, i);
    layout::type_codes(raw[i].header.typ);
    let v = validity::pass(raw, i);
    lemma_same_header(raw, h, i);
    let t = scan::at_entry(
        i,
        "incomplete ERA1 block starting at entry "@ + text::dec(h as nat) + " (missing: "@
            + lacking(raw, h, i) + ")"@,
    );
    let w = validity::pass(raw, i + 1);
    assert(scan::incomplete(i, v.group) == seq![t]);
    assert(w.errors[v.errors.len() as int] == t);
    assert(w.errors.contains(t));
    lemma_in_result(data, i + 1, t);
}

/// The header of the group is the last one.
proof fn lemma_same_header(raw: Seq<EntryView>, h: int, n: int)
    requires
        1 <= h < n <= raw.len() <= usize::MAX,
        e2store::file_bytes(raw).len() <= u64::MAX,
        validity::is_of(raw[h], 0x03, 0x00),
        forall|j: int| h < j < n ==> !validity::is_of(#[trigger] raw[j], 0x03, 0x00),
    ensures
        validity::pass(raw, n).group matches Some(g) && g.header_idx == h && g.has_body
            == validity::followed_by(raw, h, 0x04, n) && g.has_td == validity::followed_by(
            raw,
            h,
            0x06,
            n,
        ),
{
    validity::lemma_group(raw, n);
    assert(validity::occurs(raw, 0x03, 0x00, n));
    let g = validity::pass(raw, n).group->Some_0;
    assert(validity::is_of(raw[g.header_idx as int], 0x03, 0x00));
}

/// The last block is named too if it lacks its body or its total difficulty.
pub proof fn incomplete_last_block_named(data: Seq<u8>, h: int)
    requires
        e2store::all_entries_of(data) is Ok,
        data.len() <= usize::MAX,
        1 <= h < e2store::all_entries_of(data)->Ok_0.len(),
        ({
            let raw = e2store::all_entries_of(data)->Ok_0;
            let n = raw.len() as int;
            &&& validity::is_of(raw[h], 0x03, 0x00)
            &&& forall|j: int| h < j < n ==> !validity::is_of(#[trigger] raw[j], 0x03, 0x00)
            &&& !(validity::followed_by(raw, h, 0x04, n) && validity::followed_by(raw, h, 0x06, n))
        }),
    ensures
        verify::verification_of(data).errors.contains(
            "incomplete final ERA1 block starting at entry "@ + text::dec(h as nat)
                + " (missing: "@ + lacking(
                e2store::all_entries_of(data)->Ok_0,
                h,
                e2store::all_entries_of(data)->Ok_0.len() as int,
            ) + ")"@,
        ),
{
    let raw = e2store::all_entries_of(data)->Ok_0;
    let n = raw.len() as int;
    validity::lemma_sizes(data);
    layout::type_codes(raw[0].header.typ);
    lemma_same_header(raw, h, n);
    let v = validity::pass(raw, n);
    let t = "incomplete final ERA1 block starting at entry "@ + text::dec(h as nat) + " (missing: "@
        + lacking(raw, h, n) + ")"@;
    assert(scan::final_group_errors(v.group) == seq![t]);
    let r = verify::verification_of(data);
    assert(r.errors == verify::all_errors(raw, v));
    assert(r.errors[v.errors.len() as int] == t);
}

/// A file without a block index is told so, and so is a file with a state but
/// without a state index.
pub proof fn missing_index_named(data: Seq<u8>)
    requires
        e2store::all_entries_of(data) is Ok,
        data.len() <= usize::MAX,
        forall|i: int|
            1 <= i < e2store::all_entries_of(data)->Ok_0.len() ==> validity::sound(
                #[trigger] e2store::all_entries_of(data)->Ok_0[i],
            ),
    ensures
        ({
            let raw = e2store::all_entries_of(data)->Ok_0;
            let n = raw.len() as int;
            let errors = verify::verification_of(data).errors;
            &&& (forall|p: int| 1 <= p < n ==> !#[trigger] validity::block_index_like(raw, p))
                ==> errors.contains("missing block index"@)
            &&& validity::occurs(raw, 0x02, 0x00, n) && (forall|p: int|
                1 <= p < n ==> !#[trigger] validity::state_index_like(raw, p)) ==> errors.contains(
                "beacon state present but state index missing"@,
            )
        }),
{
    let raw = e2store::all_entries_of(data)->Ok_0;
    let n = raw.len() as int;
    validity::lemma_sizes(data);
    layout::type_codes(raw[0].header.typ);
    validity::lemma_indexes(raw, n);
    validity::lemma_state(raw, n);
    let v = validity::pass(raw, n);
    let r = verify::verification_of(data);
    assert(r.errors == verify::all_errors(raw, v));
    let front = v.errors + scan::final_group_errors(v.group);
    let middle = verify::block_index_errors(raw, v);
    if v.block_index is None {
        assert(r.errors[front.len() as int] == "missing block index"@);
    }
    if v.state_pos is Some && v.state_index is None {
        assert(r.errors[(front + middle).len() as int]
            == "beacon state present but state index missing"@);
    }
}

/// Whether the type of an entry is one that verification knows.
pub open spec fn known(e: EntryView) -> bool {
    (e.header.typ[1] == 0x00 && 0x01 <= e.header.typ[0] <= 0x07) || validity::is_of(e, 0x66, 0x32)
        || validity::is_of(e, 0x69, 0x32) || validity::is_of(e, 0x33, 0x00)
}

/// Whether there is nothing odd about the entry at `i`: its type is known, and a
/// part of an ERA1 block has a header somewhere before it.
pub open spec fn ordinary(raw: Seq<EntryView>, i: int) -> bool {
    &&& known(raw[i])
    &&& raw[i].header.typ[1] == 0x00 && 0x04 <= raw[i].header.typ[0] <= 0x06 ==> validity::occurs(
        raw,
        0x03,
        0x00,
        i,
    )
}

proof fn lemma_warnings(raw: Seq<EntryView>, n: int)
    requires
        1 <= n <= raw.len() <= usize::MAX,
        e2store::file_bytes(raw).len() <= u64::MAX,
    ensures
        validity::pass(raw, n).warnings.len() == 0 <==> forall|i: int|
            1 <= i < n ==> #[trigger] ordinary(raw, i),
    decreases n,
{
    if n > 1 {
        let m = n - 1;
        lemma_warnings(raw, m);
        validity::lemma_step(raw, m);
        validity::lemma_group(raw, m);
        layout::type_codes(raw[m].header.typ);
        assert(validity::pass(raw, n).warnings.len() == 0 <==> validity::pass(raw, m).warnings.len()
            == 0 && ordinary(raw, m));
    }
}

/// There are no warnings about a file of sound entries if and only if every
/// entry is of a known type, every part of an ERA1 block has a header before
/// it, the count field of the block index counts its offsets, and there is no
/// state index without a state.
pub proof fn no_warnings(data: Seq<u8>)
    requires
        e2store::all_entries_of(data) is Ok,
        data.len() <= usize::MAX,
        forall|i: int|
            1 <= i < e2store::all_entries_of(data)->Ok_0.len() ==> validity::sound(
                #[trigger] e2store::all_entries_of(data)->Ok_0[i],
            ),
    ensures
        ({
            let raw = e2store::all_entries_of(data)->Ok_0;
            let n = raw.len() as int;
            verify::verification_of(data).warnings.len() == 0 <==> {
                &&& forall|i: int| 1 <= i < n ==> #[trigger] ordinary(raw, i)
                &&& forall|p: int| #[trigger]
                    validity::block_index_at(raw, p, n) ==> era::slot_index_of(
                        raw[p].data,
                    )->Ok_0.count == era::slot_index_of(raw[p].data)->Ok_0.offsets.len()
                &&& forall|p: int| #[trigger]
                    validity::state_index_at(raw, p, n) ==> validity::occurs(raw, 0x02, 0x00, n)
            }
        }),
{
    let raw = e2store::all_entries_of(data)->Ok_0;
    let n = raw.len() as int;
    validity::lemma_sizes(data);
    layout::type_codes(raw[0].header.typ);
    validity::lemma_indexes(raw, n);
    validity::lemma_state(raw, n);
    lemma_warnings(raw, n);
    let v = validity::pass(raw, n);
    assert(verify::verification_of(data).warnings == verify::all_warnings(v));
    if v.block_index is Some {
        let idx = v.block_index->Some_0;
        let p = choose|p: int| #[trigger]
            validity::block_index_at(raw, p, n) && v.block_index_pos == layout::place_of(raw, p)
                && idx == era::slot_index_of(raw[p].data)->Ok_0;
        assert forall|q: int| #[trigger] validity::block_index_at(raw, q, n) implies q == p by {
            assert(validity::block_index_like(raw, q));
            assert(validity::block_index_like(raw, p));
        }
    } else {
        assert forall|q: int| !#[trigger] validity::block_index_at(raw, q, n) by {
            if validity::block_index_at(raw, q, n) {
                assert(validity::block_index_like(raw, q));
            }
        }
    }
    if v.state_index is Some {
        let idx = v.state_index->Some_0;
        let p = choose|p: int| #[trigger]
            validity::state_index_at(raw, p, n) && v.state_index_pos == layout::place_of(raw, p)
                && idx == era::slot_index_of(raw[p].data)->Ok_0;
        assert(validity::state_index_at(raw, p, n));
    } else {
        assert forall|q: int| !#[trigger] validity::state_index_at(raw, q, n) by {
            if validity::state_index_at(raw, q, n) {
                assert(validity::state_index_like(raw, q));
            }
        }
    }
}

/// An entry of no known type is named with its type, and a part of an ERA1 block
/// without a header before it is named as what it is.
#[verifier::spinoff_prover]
pub proof fn odd_entry_named(data: Seq<u8>, i: int)
    requires
        e2store::all_entries_of(data) is Ok,
        data.len() <= usize::MAX,
        1 <= i < e2store::all_entries_of(data)->Ok_0.len(),
    ensures
        ({
            let raw = e2store::all_entries_of(data)->Ok_0;
            let e = raw[i];
            let warnings = verify::verification_of(data).warnings;
            let alone = !validity::occurs(raw, 0x03, 0x00, i);
            &&& !known(e) ==> warnings.contains(
                "entry "@ + text::dec(i as nat) + ": "@ + ("unknown entry type "@ + text::hex_byte(
                    e.header.typ[0],
                ) + text::hex_byte(e.header.typ[1])),
            )
            &&& alone && validity::is_of(e, 0x04, 0x00) ==> warnings.contains(
                "entry "@ + text::dec(i as nat) + ": "@ + ("BlockBody"@
                    + " without preceding header"@),
            )
            &&& alone && validity::is_of(e, 0x05, 0x00) ==> warnings.contains(
                "entry "@ + text::dec(i as nat) + ": "@ + ("Receipts"@
                    + " without preceding header"@),
            )
            &&& alone && validity::is_of(e, 0x06, 0x00) ==> warnings.contains(
                "entry "@ + text::dec(i as nat) + ": "@ + ("TotalDifficulty"@
                    + " without preceding header"@),
            )
        }),
{
    let raw = e2store::all_entries_of(data)->Ok_0;
    let e = raw[i];
    validity::lemma_sizes(data);
    validity::lemma_step(raw, i);
    validity::lemma_group(raw, i);
    layout::type_codes(e.header.typ);
    let v = validity::pass(raw, i);
    let alone = !validity::occurs(raw, 0x03, 0x00, i);
    if !known(e) {
        let t = scan::at_entry(
            i,
            "unknown entry type "@ + text::hex_byte(e.header.typ[0]) + text::hex_byte(
                e.header.typ[1],
            ),
        );
        lemma_last_in(v.warnings, t);
        lemma_in_result(data, i + 1, t);
    } else if alone && validity::is_of(e, 0x04, 0x00) {
        let t = scan::at_entry(i, "BlockBody"@ + " without preceding header"@);
        lemma_last_in(v.warnings, t);
        lemma_in_result(data, i + 1, t);
    } else if alone && validity::is_of(e, 0x05, 0x00) {
        let t = scan::at_entry(i, "Receipts"@ + " without preceding header"@);
        lemma_last_in(v.warnings, t);
        lemma_in_result(data, i + 1, t);
    } else if alone && validity::is_of(e, 0x06, 0x00) {
        let t = scan::at_entry(i, "TotalDifficulty"@ + " without preceding header"@);
        lemma_last_in(v.warnings, t);
        lemma_in_result(data, i + 1, t);
    }
}

/// The pass over a file with one block index leaves that index.
proof fn lemma_block_index_seen(raw: Seq<EntryView>, p: int)
    requires
        1 <= raw.len() <= usize::MAX,
        e2store::file_bytes(raw).len() <= u64::MAX,
        forall|i: int| 1 <= i < raw.len() ==> validity::sound(#[trigger] raw[i]),
        validity::block_index_at(raw, p, raw.len() as int),
    ensures
        ({
            let v = validity::pass(raw, raw.len() as int);
            &&& v.block_index == Some(era::slot_index_of(raw[p].data)->Ok_0)
            &&& v.block_index_pos == layout::place_of(raw, p)
        }),
{
    let n = raw.len() as int;
    validity::lemma_indexes(raw, n);
    let v = validity::pass(raw, n);
    assert(validity::block_index_like(raw, p));
    assert(v.block_index is Some);
    let idx = v.block_index->Some_0;
    let q = choose|q: int| #[trigger]
        validity::block_index_at(raw, q, n) && v.block_index_pos == layout::place_of(raw, q) && idx
            == era::slot_index_of(raw[q].data)->Ok_0;
    assert(validity::block_index_like(raw, q));
    assert(p == q);
}

/// What is wrong with the block index is in the result.
proof fn lemma_index_error(data: Seq<u8>, t: Seq<char>)
    requires
        e2store::all_entries_of(data) is Ok,
        data.len() <= usize::MAX,
    ensures
        ({
            let raw = e2store::all_entries_of(data)->Ok_0;
            let v = validity::pass(raw, raw.len() as int);
            &&& verify::block_index_errors(raw, v).contains(t) ==> verify::verification_of(
                data,
            ).errors.contains(t)
            &&& verify::state_index_errors(v).contains(t) ==> verify::verification_of(
                data,
            ).errors.contains(t)
            &&& (verify::block_index_warnings(v) + verify::state_index_warnings(v)).contains(t)
                ==> verify::verification_of(data).warnings.contains(t)
        }),
{
    let raw = e2store::all_entries_of(data)->Ok_0;
    validity::lemma_sizes(data);
    layout::type_codes(raw[0].header.typ);
    let v = validity::pass(raw, raw.len() as int);
    let r = verify::verification_of(data);
    assert(r.errors == verify::all_errors(raw, v));
    assert(r.warnings == verify::all_warnings(v));
    let a = (v.errors + scan::final_group_errors(v.group)).len() as int;
    let block = verify::block_index_errors(raw, v);
    let state = verify::state_index_errors(v);
    let odd = verify::block_index_warnings(v) + verify::state_index_warnings(v);
    if block.contains(t) {
        let k = choose|k: int| 0 <= k < block.len() && block[k] == t;
        assert(r.errors[a + k] == t);
    }
    if state.contains(t) {
        let k = choose|k: int| 0 <= k < state.len() && state[k] == t;
        assert(r.errors[a + block.len() + k] == t);
    }
    if odd.contains(t) {
        let k = choose|k: int| 0 <= k < odd.len() && odd[k] == t;
        assert(r.warnings[v.warnings.len() + k] == t);
    }
}

/// A block index that does not count the blocks is told so, with both counts. A
/// count field that does not count the offsets is odd.
pub proof fn miscount_named(data: Seq<u8>, p: int)
    requires
        e2store::all_entries_of(data) is Ok,
        data.len() <= usize::MAX,
        forall|i: int|
            1 <= i < e2store::all_entries_of(data)->Ok_0.len() ==> validity::sound(
                #[trigger] e2store::all_entries_of(data)->Ok_0[i],
            ),
        validity::block_index_at(
            e2store::all_entries_of(data)->Ok_0,
            p,
            e2store::all_entries_of(data)->Ok_0.len() as int,
        ),
    ensures
        ({
            let raw = e2store::all_entries_of(data)->Ok_0;
            let idx = era::slot_index_of(raw[p].data)->Ok_0;
            let indexed = idx.offsets.filter(
                validity::used(layout::place_of(raw, p) as int),
            ).len();
            let blocks = raw.skip(1).filter(validity::begins_block()).len();
            &&& indexed != blocks ==> verify::verification_of(data).errors.contains(
                "block index has "@ + text::dec(indexed) + " non-zero offsets, file has "@
                    + text::dec(blocks) + " block entries"@,
            )
            &&& idx.count != idx.offsets.len() ==> verify::verification_of(data).warnings.contains(
                "block index count field ("@ + text::dec(idx.count as nat)
                    + ") does not match offset array length ("@ + text::dec(idx.offsets.len())
                    + ")"@,
            )
        }),
{
    let raw = e2store::all_entries_of(data)->Ok_0;
    let n = raw.len() as int;
    validity::lemma_sizes(data);
    lemma_block_index_seen(raw, p);
    validity::lemma_count(raw, n);
    assert(raw.subrange(1, n) =~= raw.skip(1));
    let v = validity::pass(raw, n);
    let idx = era::slot_index_of(raw[p].data)->Ok_0;
    let len = idx.offsets.len() as int;
    validity::lemma_used(idx.offsets, v.block_index_pos, len);
    assert(idx.offsets.take(len) =~= idx.offsets);
    let indexed = idx.offsets.filter(validity::used(layout::place_of(raw, p) as int)).len();
    let blocks = raw.skip(1).filter(validity::begins_block()).len();
    if indexed != blocks {
        let t = verify::count_text(indexed, blocks);
        assert(verify::block_index_errors(raw, v)[0] == t);
        lemma_index_error(data, t);
    }
    if idx.count != idx.offsets.len() {
        let t = verify::count_field_text(idx.count, idx.offsets.len());
        assert((verify::block_index_warnings(v) + verify::state_index_warnings(v))[0] == t);
        lemma_index_error(data, t);
    }
}

/// What is wrong with a slot is among what is wrong with the first `n` slots.
proof fn lemma_slot_error(
    raw: Seq<EntryView>,
    expected: Option<[u8; 2]>,
    pos: u64,
    idx: era::SlotIndexView,
    j: int,
    n: int,
    t: Seq<char>,
)
    requires
        0 <= j < n <= idx.offsets.len(),
        idx.starting_slot + j <= u64::MAX,
        verify::slot_errors(
            raw,
            expected,
            pos,
            (idx.starting_slot + j) as u64,
            idx.offsets[j],
        ).contains(t),
    ensures
        verify::offset_errors(raw, expected, pos, idx, n).contains(t),
    decreases n,
{
    let front = verify::offset_errors(raw, expected, pos, idx, n - 1);
    let all = verify::offset_errors(raw, expected, pos, idx, n);
    if j == n - 1 {
        let one = verify::slot_errors(
            raw,
            expected,
            pos,
            (idx.starting_slot + j) as u64,
            idx.offsets[j],
        );
        let k = choose|k: int| 0 <= k < one.len() && one[k] == t;
        assert(all[front.len() + k] == t);
    } else {
        lemma_slot_error(raw, expected, pos, idx, j, n - 1, t);
        let k = choose|k: int| 0 <= k < front.len() && front[k] == t;
        assert(all[k] == t);
    }
}

/// An offset of the block index that leads past the end of the file is named by
/// its slot, and so is one that leads to no entry, or to an entry that is no
/// block.
#[verifier::spinoff_prover]
#[verifier::rlimit(60)]
pub proof fn stray_offset_named(data: Seq<u8>, p: int, j: int)
    requires
        e2store::all_entries_of(data) is Ok,
        data.len() <= usize::MAX,
        forall|i: int|
            1 <= i < e2store::all_entries_of(data)->Ok_0.len() ==> validity::sound(
                #[trigger] e2store::all_entries_of(data)->Ok_0[i],
            ),
        ({
            let raw = e2store::all_entries_of(data)->Ok_0;
            let idx = era::slot_index_of(raw[p].data)->Ok_0;
            &&& validity::block_index_at(raw, p, raw.len() as int)
            &&& 0 <= j < idx.offsets.len()
            &&& idx.starting_slot + j <= u64::MAX
            &&& validity::used(layout::place_of(raw, p) as int)(idx.offsets[j])
        }),
    ensures
        ({
            let raw = e2store::all_entries_of(data)->Ok_0;
            let n = raw.len() as int;
            let idx = era::slot_index_of(raw[p].data)->Ok_0;
            let byte = validity::byte_reached(layout::place_of(raw, p) as int, idx.offsets[j]);
            let size = layout::place_of(raw, n);
            let errors = verify::verification_of(data).errors;
            let slot = "block index slot "@ + text::dec((idx.starting_slot + j) as nat);
            let told = validity::beacon_first(raw, n) || validity::execution_first(raw, n);
            &&& byte >= size ==> errors.contains(
                slot + ": offset resolves to byte "@ + text::dec(byte as nat)
                    + ", past file size "@ + text::dec(size),
            )
            &&& byte < size && told && (forall|k: int|
                1 <= k < n ==> #[trigger] layout::place_of(raw, k) != byte) ==> errors.contains(
                slot + ": offset resolves to byte "@ + text::dec(byte as nat)
                    + ", which does not align to any entry boundary"@,
            )
            &&& forall|k: int|
                1 <= k < n && told && layout::place_of(raw, k) == byte && !validity::is_of(
                    #[trigger] raw[k],
                    if validity::beacon_first(raw, n) {
                        0x01
                    } else {
                        0x03
                    },
                    0x00,
                ) ==> errors.contains(
                    slot + ": offset points to entry "@ + text::dec(k as nat) + " (type "@
                        + text::hex_byte(raw[k].header.typ[0]) + text::hex_byte(
                        raw[k].header.typ[1],
                    ) + "), expected "@ + (if validity::beacon_first(raw, n) {
                        "01"@
                    } else {
                        "03"@
                    }) + "00"@,
                )
        }),
{
    let raw = e2store::all_entries_of(data)->Ok_0;
    let n = raw.len() as int;
    validity::lemma_sizes(data);
    lemma_block_index_seen(raw, p);
    validity::lemma_format(raw, n);
    layout::file_layout(raw, 0);
    let v = validity::pass(raw, n);
    let idx = era::slot_index_of(raw[p].data)->Ok_0;
    let pos = v.block_index_pos;
    let offset = idx.offsets[j];
    let slot = (idx.starting_slot + j) as u64;
    let expected = verify::block_type(v.format);
    let abs = crate::bytes::wrap64(pos + offset);
    let size = layout::place_of(raw, n) as u64;
    assert(abs == validity::byte_reached(layout::place_of(raw, p) as int, offset));
    validity::lemma_starts(raw, n, abs);
    let found = verify::entry_at(raw, n, abs);
    let told = validity::beacon_first(raw, n) || validity::execution_first(raw, n);
    assert(told ==> v.format is Some);
    if abs >= size {
        let t = verify::past_end_text(slot, abs, size);
        lemma_stray(data, raw, p, j, t);
    } else if told && found is None {
        let t = verify::misaligned_text(slot, abs);
        lemma_stray(data, raw, p, j, t);
    }
    assert forall|k: int|
        1 <= k < n && told && layout::place_of(raw, k) == abs && !validity::is_of(
            #[trigger] raw[k],
            if validity::beacon_first(raw, n) {
                0x01
            } else {
                0x03
            },
            0x00,
        ) implies verify::verification_of(data).errors.contains(
        "block index slot "@ + text::dec((idx.starting_slot + j) as nat)
            + ": offset points to entry "@ + text::dec(k as nat) + " (type "@ + text::hex_byte(
            raw[k].header.typ[0],
        ) + text::hex_byte(raw[k].header.typ[1]) + "), expected "@ + (if validity::beacon_first(
            raw,
            n,
        ) {
            "01"@
        } else {
            "03"@
        }) + "00"@,
    ) by {
        layout::file_layout(raw, k);
        let f = found->Some_0;
        if f < k {
            validity::lemma_places(raw, f, k);
        } else if f > k {
            validity::lemma_places(raw, k, f);
        }
        layout::type_codes(raw[k].header.typ);
        let typ = expected->Some_0;
        layout::type_codes(typ);
        let t = verify::wrong_type_text(slot, k as nat, raw[k].header.typ, typ);
        lemma_stray(data, raw, p, j, t);
        reveal_strlit("01");
        reveal_strlit("03");
        reveal_strlit("00");
        assert(text::hex_byte(0x01u8) =~= "01"@);
        assert(text::hex_byte(0x03u8) =~= "03"@);
        assert(text::hex_byte(0x00u8) =~= "00"@);
    }
}

/// What is wrong with a slot of the block index is in the result.
proof fn lemma_stray(data: Seq<u8>, raw: Seq<EntryView>, p: int, j: int, t: Seq<char>)
    requires
        e2store::all_entries_of(data) == Ok::<Seq<EntryView>, crate::error::IoErrorView>(raw),
        data.len() <= usize::MAX,
        forall|i: int| 1 <= i < raw.len() ==> validity::sound(#[trigger] raw[i]),
        validity::block_index_at(raw, p, raw.len() as int),
        ({
            let v = validity::pass(raw, raw.len() as int);
            let idx = era::slot_index_of(raw[p].data)->Ok_0;
            &&& 0 <= j < idx.offsets.len()
            &&& idx.starting_slot + j <= u64::MAX
            &&& verify::slot_errors(
                raw,
                verify::block_type(v.format),
                v.block_index_pos,
                (idx.starting_slot + j) as u64,
                idx.offsets[j],
            ) == seq![t]
        }),
    ensures
        verify::verification_of(data).errors.contains(t),
{
    let n = raw.len() as int;
    validity::lemma_sizes(data);
    lemma_block_index_seen(raw, p);
    let v = validity::pass(raw, n);
    let idx = era::slot_index_of(raw[p].data)->Ok_0;
    let expected = verify::block_type(v.format);
    let len = idx.offsets.len() as int;
    assert(seq![t][0] == t);
    lemma_slot_error(raw, expected, v.block_index_pos, idx, j, len, t);
    let all = verify::block_index_errors(raw, v);
    let slots = verify::offset_errors(raw, expected, v.block_index_pos, idx, len);
    let k = choose|k: int| 0 <= k < slots.len() && slots[k] == t;
    assert(all[all.len() - slots.len() + k] == t);
    lemma_index_error(data, t);
}

/// A state index that does not lead to the state is told so. One without a state
/// is odd.
#[verifier::spinoff_prover]
pub proof fn state_index_flaw_named(data: Seq<u8>, q: int)
    requires
        e2store::all_entries_of(data) is Ok,
        data.len() <= usize::MAX,
        forall|i: int|
            1 <= i < e2store::all_entries_of(data)->Ok_0.len() ==> validity::sound(
                #[trigger] e2store::all_entries_of(data)->Ok_0[i],
            ),
        validity::state_index_at(
            e2store::all_entries_of(data)->Ok_0,
            q,
            e2store::all_entries_of(data)->Ok_0.len() as int,
        ),
    ensures
        ({
            let raw = e2store::all_entries_of(data)->Ok_0;
            let n = raw.len() as int;
            let offsets = era::slot_index_of(raw[q].data)->Ok_0.offsets;
            let byte = validity::byte_reached(layout::place_of(raw, q) as int, offsets[0]);
            let r = verify::verification_of(data);
            &&& !validity::occurs(raw, 0x02, 0x00, n) ==> r.warnings.contains(
                "state index present but no beacon state entry found"@,
            )
            &&& validity::occurs(raw, 0x02, 0x00, n) && offsets.len() == 0 ==> r.errors.contains(
                "state index contains no offsets"@,
            )
            &&& validity::occurs(raw, 0x02, 0x00, n) && offsets.len() > 0 && offsets[0] == 0
                ==> r.errors.contains("state index offset is 0 (does not reference state)"@)
            &&& forall|s: int| #[trigger]
                validity::state_at(raw, s, n) && offsets.len() > 0 && offsets[0] != 0 && byte
                    != layout::place_of(raw, s) ==> r.errors.contains(
                    "state index offset resolves to byte "@ + text::dec(byte as nat)
                        + ", expected "@ + text::dec(layout::place_of(raw, s)),
                )
        }),
{
    let raw = e2store::all_entries_of(data)->Ok_0;
    let n = raw.len() as int;
    validity::lemma_sizes(data);
    validity::lemma_indexes(raw, n);
    validity::lemma_state(raw, n);
    let v = validity::pass(raw, n);
    assert(validity::state_index_like(raw, q));
    let idx = v.state_index->Some_0;
    let p = choose|p: int| #[trigger]
        validity::state_index_at(raw, p, n) && v.state_index_pos == layout::place_of(raw, p) && idx
            == era::slot_index_of(raw[p].data)->Ok_0;
    assert(validity::state_index_like(raw, p));
    assert(p == q);
    if v.state_pos is None {
        let t = "state index present but no beacon state entry found"@;
        let odd = verify::block_index_warnings(v) + verify::state_index_warnings(v);
        assert(odd[odd.len() - 1] == t);
        lemma_index_error(data, t);
    } else {
        let found = verify::state_index_errors(v);
        if idx.offsets.len() == 0 {
            assert(found[0] == "state index contains no offsets"@);
            lemma_index_error(data, "state index contains no offsets"@);
        } else if idx.offsets[0] == 0 {
            assert(found[0] == "state index offset is 0 (does not reference state)"@);
            lemma_index_error(data, "state index offset is 0 (does not reference state)"@);
        } else {
            let at = v.state_pos->Some_0;
            let s0 = choose|s: int| #[trigger]
                validity::state_at(raw, s, n) && at == layout::place_of(raw, s);
            let abs = crate::bytes::wrap64(v.state_index_pos + idx.offsets[0]);
            assert forall|s: int| #[trigger]
                validity::state_at(raw, s, n) && abs != layout::place_of(
                    raw,
                    s,
                ) implies verify::verification_of(data).errors.contains(
                "state index offset resolves to byte "@ + text::dec(abs as nat) + ", expected "@
                    + text::dec(layout::place_of(raw, s)),
            ) by {
                assert(validity::is_of(raw[s], 0x02, 0x00));
                assert(validity::is_of(raw[s0], 0x02, 0x00));
                assert(s == s0);
                let t = verify::state_offset_text(abs, at);
                assert(found[0] == t);
                lemma_index_error(data, t);
            }
        }
    }
    assert forall|s: int| #[trigger] validity::state_at(raw, s, n) implies validity::occurs(
        raw,
        0x02,
        0x00,
        n,
    ) by {
        assert(validity::is_of(raw[s], 0x02, 0x00));
    }
}

} // verus!
