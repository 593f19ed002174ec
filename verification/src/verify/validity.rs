//! What makes a file valid.

use vstd::prelude::*;

use crate::bytes;
use crate::format::e2store;
use crate::format::e2store::EntryView;
use crate::format::era;
use crate::format::laws as layout;
use crate::read::typed::EraFormat;
use crate::verify;
use crate::verify::scan;
use crate::verify::scan::ScanView;

verus! {

/// Whether an entry has a type of these two bytes.
pub open spec fn is_of(e: EntryView, first: u8, second: u8) -> bool {
    layout::has_code(e.header.typ, first, second)
}

/// Whether an entry is sound in itself: a beacon block, a state and an ERA1
/// header decompress, an index can be decoded, and a total difficulty and an
/// accumulator have 32 bytes.
pub open spec fn sound(e: EntryView) -> bool {
    &&& is_of(e, 0x01, 0x00) || is_of(e, 0x02, 0x00) || is_of(e, 0x03, 0x00)
        ==> era::snappy_decoded(e.data) is Ok
    &&& is_of(e, 0x66, 0x32) || is_of(e, 0x69, 0x32) || is_of(e, 0x33, 0x00)
        ==> era::slot_index_of(e.data) is Ok
    &&& is_of(e, 0x06, 0x00) || is_of(e, 0x07, 0x00) ==> e.data.len() == 32
}

/// Whether an entry whose type has the first byte `code` and the second 0 stands
/// after the ERA1 header at `h`, below `n` and before the next header.
pub open spec fn followed_by(raw: Seq<EntryView>, h: int, code: u8, n: int) -> bool {
    exists|b: int|
        h < b < n && is_of(#[trigger] raw[b], code, 0x00) && forall|j: int|
            h < j < b ==> !is_of(#[trigger] raw[j], 0x03, 0x00)
}

/// Whether every ERA1 header below `n` with another after it is followed by a
/// body and a total difficulty before that.
pub open spec fn closed_groups(raw: Seq<EntryView>, n: int) -> bool {
    forall|h: int, i: int|
        1 <= h < i < n && is_of(#[trigger] raw[h], 0x03, 0x00) && is_of(#[trigger] raw[i], 0x03, 0x00)
            ==> followed_by(raw, h, 0x04, n) && followed_by(raw, h, 0x06, n)
}

/// Whether every ERA1 header is followed by a body and a total difficulty before
/// the next header or the end.
pub open spec fn whole_groups(raw: Seq<EntryView>) -> bool {
    forall|h: int|
        1 <= h < raw.len() && is_of(#[trigger] raw[h], 0x03, 0x00) ==> followed_by(
            raw,
            h,
            0x04,
            raw.len() as int,
        ) && followed_by(raw, h, 0x06, raw.len() as int)
}

/// Whether an entry is a beacon block or the header of an ERA1 block.
pub open spec fn begins_block() -> spec_fn(EntryView) -> bool {
    |e: EntryView| is_of(e, 0x01, 0x00) || is_of(e, 0x03, 0x00)
}

/// Whether an entry of a type with the first byte `first` and the second
/// `second` stands from the version on below `n`.
pub open spec fn occurs(raw: Seq<EntryView>, first: u8, second: u8, n: int) -> bool {
    exists|j: int| 1 <= j < n && is_of(#[trigger] raw[j], first, second)
}

/// Whether the entry at `p` is the last block index below `n`. A generic slot
/// index is a block index if it is the first.
pub open spec fn block_index_at(raw: Seq<EntryView>, p: int, n: int) -> bool {
    &&& 1 <= p < n
    &&& block_index_like(raw, p)
    &&& forall|q: int| p < q < n ==> !#[trigger] block_index_like(raw, q)
}

/// Whether the entry at `p` serves as a block index.
pub open spec fn block_index_like(raw: Seq<EntryView>, p: int) -> bool {
    is_of(raw[p], 0x66, 0x32) || (is_of(raw[p], 0x69, 0x32) && !occurs(raw, 0x69, 0x32, p))
}

/// Whether the entry at `p` serves as a state index. A generic slot index is a
/// state index if it is not the first.
pub open spec fn state_index_like(raw: Seq<EntryView>, p: int) -> bool {
    is_of(raw[p], 0x33, 0x00) || (is_of(raw[p], 0x69, 0x32) && occurs(raw, 0x69, 0x32, p))
}

/// Whether the entry at `p` is the last state index below `n`.
pub open spec fn state_index_at(raw: Seq<EntryView>, p: int, n: int) -> bool {
    &&& 1 <= p < n
    &&& state_index_like(raw, p)
    &&& forall|q: int| p < q < n ==> !#[trigger] state_index_like(raw, q)
}

/// Whether the entry at `p` is the last state below `n`.
pub open spec fn state_at(raw: Seq<EntryView>, p: int, n: int) -> bool {
    &&& 1 <= p < n
    &&& is_of(raw[p], 0x02, 0x00)
    &&& forall|q: int| p < q < n ==> !is_of(#[trigger] raw[q], 0x02, 0x00)
}

/// Whether an entry is a part of an ERA1 block.
pub open spec fn era1_part(e: EntryView) -> bool {
    e.header.typ[1] == 0 && 0x03 <= e.header.typ[0] <= 0x06
}

/// Whether the first of the entries below `n` that is a beacon block or a part
/// of an ERA1 block is a beacon block.
pub open spec fn beacon_first(raw: Seq<EntryView>, n: int) -> bool {
    exists|k: int|
        1 <= k < n && is_of(#[trigger] raw[k], 0x01, 0x00) && forall|j: int|
            1 <= j < k ==> !era1_part(#[trigger] raw[j])
}

/// Whether the first of the entries below `n` that is a beacon block or a part
/// of an ERA1 block is a part of an ERA1 block.
pub open spec fn execution_first(raw: Seq<EntryView>, n: int) -> bool {
    exists|k: int|
        1 <= k < n && era1_part(#[trigger] raw[k]) && forall|j: int|
            1 <= j < k ==> !is_of(#[trigger] raw[j], 0x01, 0x00)
}

/// The byte that an offset leads to from an index at byte `at`.
pub open spec fn byte_reached(at: int, offset: i64) -> int {
    (at + offset) % 0x1_0000_0000_0000_0000
}

/// Whether an offset of an index at byte `at` is used. 0 stands for a skipped
/// slot, and what leads to the start of the file counts as skipped too.
pub open spec fn used(at: int) -> spec_fn(i64) -> bool {
    |offset: i64| offset != 0 && byte_reached(at, offset) != 0
}

/// Whether an offset leads to an entry of a block, from an index at byte `at`.
pub open spec fn leads_to_block(raw: Seq<EntryView>, at: int, offset: i64) -> bool {
    exists|k: int|
        1 <= k < raw.len() && layout::place_of(raw, k) == byte_reached(at, offset) && is_of(
            #[trigger] raw[k],
            if beacon_first(raw, raw.len() as int) {
                0x01
            } else {
                0x03
            },
            0x00,
        )
}

/// Whether the block index at `p` counts the blocks and leads to blocks alone.
pub open spec fn sound_block_index(raw: Seq<EntryView>, p: int) -> bool {
    let at = layout::place_of(raw, p) as int;
    let offsets = era::slot_index_of(raw[p].data)->Ok_0.offsets;
    &&& offsets.filter(used(at)).len() == raw.skip(1).filter(begins_block()).len()
    &&& forall|i: int|
        0 <= i < offsets.len() && used(at)(#[trigger] offsets[i]) ==> leads_to_block(
            raw,
            at,
            offsets[i],
        )
}

/// Whether the state index at `q` leads to the state at `s`.
pub open spec fn sound_state_index(raw: Seq<EntryView>, q: int, s: int) -> bool {
    let offsets = era::slot_index_of(raw[q].data)->Ok_0.offsets;
    &&& offsets.len() > 0
    &&& offsets[0] != 0
    &&& byte_reached(layout::place_of(raw, q) as int, offsets[0]) == layout::place_of(raw, s)
}

/// Whether the entries of a file are as they should be.
pub open spec fn flawless(raw: Seq<EntryView>) -> bool {
    let n = raw.len() as int;
    &&& forall|i: int| 1 <= i < n ==> sound(#[trigger] raw[i])
    &&& whole_groups(raw)
    &&& exists|p: int| #[trigger] block_index_at(raw, p, n) && sound_block_index(raw, p)
    &&& forall|s: int| #[trigger]
        state_at(raw, s, n) ==> exists|q: int| #[trigger]
            state_index_at(raw, q, n) && sound_state_index(raw, q, s)
}

/// The state of the pass after the first `n` entries.
pub open spec fn pass(raw: Seq<EntryView>, n: int) -> ScanView {
    scan::scanned(raw, verify::decompression_failures(raw), n)
}

/// A step of the pass.
pub proof fn lemma_step(raw: Seq<EntryView>, n: int)
    requires
        1 <= n < raw.len(),
        e2store::file_bytes(raw).len() <= u64::MAX,
    ensures
        pass(raw, n + 1) == pass(raw, n).step(
            n,
            layout::place_of(raw, n) as u64,
            raw[n],
            verify::decompression_failure(raw[n]),
        ),
        layout::place_of(raw, n) <= u64::MAX,
{
    layout::file_layout(raw, n);
}

/// Nothing but the first `n` entries matters for what follows a header that
/// another header follows.
proof fn lemma_followed_on(raw: Seq<EntryView>, h: int, code: u8, n: int)
    requires
        1 <= h < n < raw.len(),
    ensures
        followed_by(raw, h, code, n) ==> followed_by(raw, h, code, n + 1),
        (forall|j: int| h < j < n ==> !is_of(#[trigger] raw[j], 0x03, 0x00)) ==> (followed_by(
            raw,
            h,
            code,
            n + 1,
        ) <==> followed_by(raw, h, code, n) || is_of(raw[n], code, 0x00)),
        (exists|j: int| h < j < n && is_of(#[trigger] raw[j], 0x03, 0x00)) ==> (followed_by(
            raw,
            h,
            code,
            n + 1,
        ) <==> followed_by(raw, h, code, n)),
{
    if followed_by(raw, h, code, n) {
        let b = choose|b: int|
            h < b < n && is_of(#[trigger] raw[b], code, 0x00) && forall|j: int|
                h < j < b ==> !is_of(#[trigger] raw[j], 0x03, 0x00);
        assert(h < b < n + 1 && is_of(raw[b], code, 0x00));
    }
    if followed_by(raw, h, code, n + 1) {
        let b = choose|b: int|
            h < b < n + 1 && is_of(#[trigger] raw[b], code, 0x00) && forall|j: int|
                h < j < b ==> !is_of(#[trigger] raw[j], 0x03, 0x00);
        assert(is_of(raw[b], code, 0x00));
    }
    if is_of(raw[n], code, 0x00) && (forall|j: int|
        h < j < n ==> !is_of(#[trigger] raw[j], 0x03, 0x00)) {
        assert(h < n < n + 1 && is_of(raw[n], code, 0x00));
    }
}

/// The group that the pass is in after the first `n` entries.
#[verifier::spinoff_prover]
pub proof fn lemma_group(raw: Seq<EntryView>, n: int)
    requires
        1 <= n <= raw.len() <= usize::MAX,
        e2store::file_bytes(raw).len() <= u64::MAX,
    ensures
        ({
            let group = pass(raw, n).group;
            &&& group is None <==> !occurs(raw, 0x03, 0x00, n)
            &&& group matches Some(g) ==> {
                let h = g.header_idx as int;
                &&& 1 <= h < n
                &&& is_of(raw[h], 0x03, 0x00)
                &&& forall|j: int| h < j < n ==> !is_of(#[trigger] raw[j], 0x03, 0x00)
                &&& g.has_body == followed_by(raw, h, 0x04, n)
                &&& g.has_td == followed_by(raw, h, 0x06, n)
            }
        }),
    decreases n,
{
    if n > 1 {
        lemma_group(raw, n - 1);
        lemma_step(raw, n - 1);
        layout::type_codes(raw[n - 1].header.typ);
        let before = pass(raw, n - 1).group;
        let after = pass(raw, n).group;
        if is_of(raw[n - 1], 0x03, 0x00) {
            assert(!followed_by(raw, n - 1, 0x04, n));
            assert(!followed_by(raw, n - 1, 0x06, n));
        } else if before is Some {
            let h = before->Some_0.header_idx as int;
            lemma_followed_on(raw, h, 0x04, n - 1);
            lemma_followed_on(raw, h, 0x06, n - 1);
            assert(after->Some_0.header_idx == h);
        }
        if occurs(raw, 0x03, 0x00, n - 1) {
            let j = choose|j: int| 1 <= j < n - 1 && is_of(#[trigger] raw[j], 0x03, 0x00);
            assert(is_of(raw[j], 0x03, 0x00));
        }
    }
}

/// The errors of the first `n` entries.
#[verifier::spinoff_prover]
proof fn lemma_errors(raw: Seq<EntryView>, n: int)
    requires
        1 <= n <= raw.len() <= usize::MAX,
        e2store::file_bytes(raw).len() <= u64::MAX,
    ensures
        pass(raw, n).errors.len() == 0 <==> (forall|i: int| 1 <= i < n ==> sound(#[trigger] raw[i]))
            && closed_groups(raw, n),
    decreases n,
{
    if n > 1 {
        let m = n - 1;
        lemma_errors(raw, m);
        lemma_group(raw, m);
        lemma_step(raw, m);
        let e = raw[m];
        layout::type_codes(e.header.typ);
        let group = pass(raw, m).group;
        let clean = (forall|i: int| 1 <= i < m ==> sound(#[trigger] raw[i])) && closed_groups(
            raw,
            m,
        );
        let fine = if is_of(e, 0x03, 0x00) && group is Some {
            let h = group->Some_0.header_idx as int;
            followed_by(raw, h, 0x04, m) && followed_by(raw, h, 0x06, m)
        } else {
            true
        };
        assert(pass(raw, n).errors.len() == 0 <==> pass(raw, m).errors.len() == 0 && sound(e)
            && fine) by {
            assert(verify::decompression_failure(e) is None <==> (crate::read::typed::compressed_type(
                e.header.typ,
            ) ==> era::snappy_decoded(e.data) is Ok));
        }
        assert(closed_groups(raw, n) <==> closed_groups(raw, m) && fine) by {
            lemma_closed(raw, m);
        }
        assert((forall|i: int| 1 <= i < n ==> sound(#[trigger] raw[i])) <==> (forall|i: int|
            1 <= i < m ==> sound(#[trigger] raw[i])) && sound(e)) by {
            if forall|i: int| 1 <= i < n ==> sound(#[trigger] raw[i]) {
                assert(sound(raw[m]));
            }
        }
    }
}

/// A header closes the group before it, and nothing else does.
#[verifier::spinoff_prover]
proof fn lemma_closed(raw: Seq<EntryView>, m: int)
    requires
        1 <= m < raw.len() <= usize::MAX,
        e2store::file_bytes(raw).len() <= u64::MAX,
    ensures
        closed_groups(raw, m + 1) <==> closed_groups(raw, m) && (is_of(raw[m], 0x03, 0x00) && pass(
            raw,
            m,
        ).group is Some ==> {
            let h = pass(raw, m).group->Some_0.header_idx as int;
            followed_by(raw, h, 0x04, m) && followed_by(raw, h, 0x06, m)
        }),
{
    lemma_group(raw, m);
    layout::type_codes(raw[m].header.typ);
    let group = pass(raw, m).group;
    let last = group->Some_0.header_idx as int;
    if closed_groups(raw, m + 1) {
        assert forall|h: int, i: int|
            1 <= h < i < m && is_of(#[trigger] raw[h], 0x03, 0x00) && is_of(
                #[trigger] raw[i],
                0x03,
                0x00,
            ) implies followed_by(raw, h, 0x04, m) && followed_by(raw, h, 0x06, m) by {
            lemma_followed_on(raw, h, 0x04, m);
            lemma_followed_on(raw, h, 0x06, m);
        }
        if is_of(raw[m], 0x03, 0x00) && group is Some {
            assert(is_of(raw[last], 0x03, 0x00));
            lemma_followed_on(raw, last, 0x04, m);
            lemma_followed_on(raw, last, 0x06, m);
        }
    }
    if closed_groups(raw, m) && (is_of(raw[m], 0x03, 0x00) && group is Some ==> followed_by(
        raw,
        last,
        0x04,
        m,
    ) && followed_by(raw, last, 0x06, m)) {
        assert forall|h: int, i: int|
            1 <= h < i < m + 1 && is_of(#[trigger] raw[h], 0x03, 0x00) && is_of(
                #[trigger] raw[i],
                0x03,
                0x00,
            ) implies followed_by(raw, h, 0x04, m + 1) && followed_by(raw, h, 0x06, m + 1) by {
            lemma_followed_on(raw, h, 0x04, m);
            lemma_followed_on(raw, h, 0x06, m);
            if i == m {
                assert(occurs(raw, 0x03, 0x00, m));
                if h != last {
                    assert(1 <= h < last < m && is_of(raw[last], 0x03, 0x00));
                }
            }
        }
    }
}

/// The blocks among the first `n` entries.
pub proof fn lemma_count(raw: Seq<EntryView>, n: int)
    requires
        1 <= n <= raw.len() <= usize::MAX,
        e2store::file_bytes(raw).len() <= u64::MAX,
    ensures
        pass(raw, n).block_count == raw.subrange(1, n).filter(begins_block()).len(),
        raw.subrange(1, n).filter(begins_block()).len() <= n - 1,
    decreases n,
{
    if n > 1 {
        lemma_count(raw, n - 1);
        lemma_step(raw, n - 1);
        layout::type_codes(raw[n - 1].header.typ);
        let before = raw.subrange(1, n - 1);
        before.lemma_filter_push(raw[n - 1], begins_block());
        assert(before.push(raw[n - 1]) =~= raw.subrange(1, n));
    } else {
        reveal(Seq::filter);
        assert(raw.subrange(1, n) =~= Seq::empty());
    }
}

/// The state that the pass has seen.
pub proof fn lemma_state(raw: Seq<EntryView>, n: int)
    requires
        1 <= n <= raw.len() <= usize::MAX,
        e2store::file_bytes(raw).len() <= u64::MAX,
    ensures
        ({
            let pos = pass(raw, n).state_pos;
            &&& pos is None <==> !occurs(raw, 0x02, 0x00, n)
            &&& pos matches Some(at) ==> exists|s: int| #[trigger]
                state_at(raw, s, n) && at == layout::place_of(raw, s)
        }),
    decreases n,
{
    if n > 1 {
        let m = n - 1;
        lemma_state(raw, m);
        lemma_step(raw, m);
        layout::type_codes(raw[m].header.typ);
        if is_of(raw[m], 0x02, 0x00) {
            assert(state_at(raw, m, n));
        } else if pass(raw, m).state_pos is Some {
            let s = choose|s: int| #[trigger]
                state_at(raw, s, m) && pass(raw, m).state_pos->Some_0 == layout::place_of(raw, s);
            assert(state_at(raw, s, n));
            assert(is_of(raw[s], 0x02, 0x00));
        }
    }
}

/// The format that the pass has seen.
#[verifier::spinoff_prover]
pub proof fn lemma_format(raw: Seq<EntryView>, n: int)
    requires
        1 <= n <= raw.len() <= usize::MAX,
        e2store::file_bytes(raw).len() <= u64::MAX,
    ensures
        pass(raw, n).format == Some(EraFormat::Era) <==> beacon_first(raw, n),
        pass(raw, n).format == Some(EraFormat::Era1) <==> execution_first(raw, n),
        pass(raw, n).format is None <==> forall|k: int|
            1 <= k < n ==> !is_of(#[trigger] raw[k], 0x01, 0x00) && !era1_part(raw[k]),
    decreases n,
{
    if n > 1 {
        let m = n - 1;
        lemma_format(raw, m);
        lemma_step(raw, m);
        let e = raw[m];
        layout::type_codes(e.header.typ);
        if beacon_first(raw, m) {
            let k = choose|k: int|
                1 <= k < m && is_of(#[trigger] raw[k], 0x01, 0x00) && forall|j: int|
                    1 <= j < k ==> !era1_part(#[trigger] raw[j]);
            assert(is_of(raw[k], 0x01, 0x00));
            assert(beacon_first(raw, n));
            assert(!execution_first(raw, n));
        } else if execution_first(raw, m) {
            let k = choose|k: int|
                1 <= k < m && era1_part(#[trigger] raw[k]) && forall|j: int|
                    1 <= j < k ==> !is_of(#[trigger] raw[j], 0x01, 0x00);
            assert(era1_part(raw[k]));
            assert(execution_first(raw, n));
            assert(!beacon_first(raw, n));
        } else {
            assert(pass(raw, m).format is None);
            assert(era1_part(e) ==> execution_first(raw, n));
            assert(is_of(e, 0x01, 0x00) ==> beacon_first(raw, n));
            assert(execution_first(raw, n) ==> era1_part(e));
            assert(beacon_first(raw, n) ==> is_of(e, 0x01, 0x00));
        }
    }
}

/// The indexes that the pass has seen, if they can be decoded.
#[verifier::spinoff_prover]
pub proof fn lemma_indexes(raw: Seq<EntryView>, n: int)
    requires
        1 <= n <= raw.len() <= usize::MAX,
        e2store::file_bytes(raw).len() <= u64::MAX,
        forall|i: int| 1 <= i < n ==> sound(#[trigger] raw[i]),
    ensures
        ({
            let v = pass(raw, n);
            &&& v.slot_index_seen == occurs(raw, 0x69, 0x32, n)
            &&& v.block_index is None <==> forall|p: int|
                1 <= p < n ==> !#[trigger] block_index_like(raw, p)
            &&& v.block_index matches Some(idx) ==> exists|p: int| #[trigger]
                block_index_at(raw, p, n) && v.block_index_pos == layout::place_of(raw, p) && idx
                    == era::slot_index_of(raw[p].data)->Ok_0
            &&& v.state_index is None <==> forall|p: int|
                1 <= p < n ==> !#[trigger] state_index_like(raw, p)
            &&& v.state_index matches Some(idx) ==> exists|p: int| #[trigger]
                state_index_at(raw, p, n) && v.state_index_pos == layout::place_of(raw, p) && idx
                    == era::slot_index_of(raw[p].data)->Ok_0
        }),
    decreases n,
{
    if n > 1 {
        let m = n - 1;
        lemma_indexes(raw, m);
        lemma_step(raw, m);
        let e = raw[m];
        layout::type_codes(e.header.typ);
        assert(sound(e));
        let v = pass(raw, m);
        let w = pass(raw, n);
        assert(w.slot_index_seen == occurs(raw, 0x69, 0x32, n)) by {
            if occurs(raw, 0x69, 0x32, m) {
                let j = choose|j: int| 1 <= j < m && is_of(#[trigger] raw[j], 0x69, 0x32);
                assert(is_of(raw[j], 0x69, 0x32));
            }
            if is_of(e, 0x69, 0x32) {
                assert(is_of(raw[m], 0x69, 0x32));
            }
        }
        if block_index_like(raw, m) {
            assert(block_index_at(raw, m, n));
            assert(w.block_index == Some(era::slot_index_of(raw[m].data)->Ok_0));
        } else {
            assert(w.block_index == v.block_index && w.block_index_pos == v.block_index_pos);
            if v.block_index is Some {
                let p = choose|p: int| #[trigger]
                    block_index_at(raw, p, m) && v.block_index_pos == layout::place_of(raw, p)
                        && v.block_index->Some_0 == era::slot_index_of(raw[p].data)->Ok_0;
                assert(block_index_at(raw, p, n));
                assert(block_index_like(raw, p));
            }
        }
        if state_index_like(raw, m) {
            assert(state_index_at(raw, m, n));
            assert(w.state_index == Some(era::slot_index_of(raw[m].data)->Ok_0));
        } else {
            assert(w.state_index == v.state_index && w.state_index_pos == v.state_index_pos);
            if v.state_index is Some {
                let p = choose|p: int| #[trigger]
                    state_index_at(raw, p, m) && v.state_index_pos == layout::place_of(raw, p)
                        && v.state_index->Some_0 == era::slot_index_of(raw[p].data)->Ok_0;
                assert(state_index_at(raw, p, n));
                assert(state_index_like(raw, p));
            }
        }
    }
}

/// The offsets that are used.
pub proof fn lemma_used(offsets: Seq<i64>, pos: u64, n: int)
    requires
        0 <= n <= offsets.len(),
    ensures
        verify::indexed_count(offsets, pos, n) == offsets.take(n).filter(used(pos as int)).len(),
    decreases n,
{
    if n > 0 {
        lemma_used(offsets, pos, n - 1);
        let before = offsets.take(n - 1);
        before.lemma_filter_push(offsets[n - 1], used(pos as int));
        assert(before.push(offsets[n - 1]) =~= offsets.take(n));
    } else {
        reveal(Seq::filter);
        assert(offsets.take(0) =~= Seq::empty());
    }
}

/// Where an entry starts, nothing else starts.
pub proof fn lemma_places(raw: Seq<EntryView>, i: int, j: int)
    requires
        0 <= i < j,
    ensures
        layout::place_of(raw, i) < layout::place_of(raw, j),
    decreases j,
{
    if i < j - 1 {
        lemma_places(raw, i, j - 1);
    }
}

/// Which entry starts at a byte.
pub proof fn lemma_starts(raw: Seq<EntryView>, n: int, at: u64)
    requires
        1 <= n <= raw.len(),
    ensures
        match verify::entry_at(raw, n, at) {
            Some(k) => 1 <= k < n && layout::place_of(raw, k) == at,
            None => forall|k: int| 1 <= k < n ==> #[trigger] layout::place_of(raw, k) != at,
        },
    decreases n,
{
    if n > 1 {
        lemma_starts(raw, n - 1, at);
        layout::file_layout(raw, n - 1);
    }
}

/// Nothing is wrong with a slot if its offset is not used, or leads to a block.
#[verifier::spinoff_prover]
proof fn lemma_slot(raw: Seq<EntryView>, format: EraFormat, pos: u64, slot: u64, offset: i64)
    requires
        1 <= raw.len() <= usize::MAX,
        e2store::file_bytes(raw).len() <= u64::MAX,
        format is Era <==> beacon_first(raw, raw.len() as int),
    ensures
        verify::slot_errors(raw, verify::block_type(Some(format)), pos, slot, offset).len() == 0
            <==> (used(pos as int)(offset) ==> leads_to_block(raw, pos as int, offset)),
{
    let abs = bytes::wrap64(pos + offset);
    let n = raw.len() as int;
    lemma_starts(raw, n, abs);
    layout::file_layout(raw, 0);
    assert(abs == byte_reached(pos as int, offset));
    let found = verify::entry_at(raw, n, abs);
    if found is Some {
        layout::type_codes(raw[found->Some_0].header.typ);
        layout::file_layout(raw, found->Some_0);
    }
    if leads_to_block(raw, pos as int, offset) {
        let k = choose|k: int|
            1 <= k < raw.len() && layout::place_of(raw, k) == byte_reached(pos as int, offset)
                && is_of(
                #[trigger] raw[k],
                if beacon_first(raw, raw.len() as int) {
                    0x01
                } else {
                    0x03
                },
                0x00,
            );
        assert(layout::place_of(raw, k) == abs);
        if found is Some && found->Some_0 < k {
            lemma_places(raw, found->Some_0, k);
        } else if found is Some && found->Some_0 > k {
            lemma_places(raw, k, found->Some_0);
        }
        layout::file_layout(raw, k);
    }
    if found is Some {
        assert(is_of(raw[found->Some_0], 0x01, 0x00) || !is_of(raw[found->Some_0], 0x01, 0x00));
    }
}

/// Nothing is wrong with an index if nothing is with any of its slots.
proof fn lemma_slots(
    raw: Seq<EntryView>,
    format: EraFormat,
    pos: u64,
    idx: era::SlotIndexView,
    n: int,
)
    requires
        1 <= raw.len() <= usize::MAX,
        e2store::file_bytes(raw).len() <= u64::MAX,
        format is Era <==> beacon_first(raw, raw.len() as int),
        0 <= n <= idx.offsets.len(),
    ensures
        verify::offset_errors(raw, verify::block_type(Some(format)), pos, idx, n).len() == 0
            <==> forall|i: int|
            0 <= i < n && used(pos as int)(#[trigger] idx.offsets[i]) ==> leads_to_block(
                raw,
                pos as int,
                idx.offsets[i],
            ),
    decreases n,
{
    if n > 0 {
        lemma_slots(raw, format, pos, idx, n - 1);
        lemma_slot(
            raw,
            format,
            pos,
            bytes::wrap64(idx.starting_slot + (n - 1)),
            idx.offsets[n - 1],
        );
    }
}

/// An index of a file without blocks that counts none leads nowhere.
proof fn lemma_unused(
    raw: Seq<EntryView>,
    pos: u64,
    idx: era::SlotIndexView,
    n: int,
)
    requires
        0 <= n <= idx.offsets.len(),
        verify::indexed_count(idx.offsets, pos, n) == 0,
    ensures
        verify::offset_errors(raw, None, pos, idx, n).len() == 0,
        forall|i: int| 0 <= i < n ==> !used(pos as int)(#[trigger] idx.offsets[i]),
    decreases n,
{
    if n > 0 {
        lemma_unused(raw, pos, idx, n - 1);
    }
}

/// A file of sound entries has a sound block index if and only if verification
/// finds no error in it.
#[verifier::spinoff_prover]
proof fn lemma_block_index(raw: Seq<EntryView>)
    requires
        1 <= raw.len() <= usize::MAX,
        e2store::file_bytes(raw).len() <= u64::MAX,
        forall|i: int| 1 <= i < raw.len() ==> sound(#[trigger] raw[i]),
    ensures
        verify::block_index_errors(raw, pass(raw, raw.len() as int)).len() == 0 <==> exists|p: int|
            #[trigger] block_index_at(raw, p, raw.len() as int) && sound_block_index(raw, p),
{
    let n = raw.len() as int;
    let v = pass(raw, n);
    lemma_indexes(raw, n);
    lemma_count(raw, n);
    lemma_format(raw, n);
    assert(raw.subrange(1, n) =~= raw.skip(1));
    match v.block_index {
        None => {
            assert forall|p: int| !#[trigger] block_index_at(raw, p, n) by {
                if block_index_at(raw, p, n) {
                    assert(block_index_like(raw, p));
                }
            }
        },
        Some(idx) => {
            let p = choose|p: int| #[trigger]
                block_index_at(raw, p, n) && v.block_index_pos == layout::place_of(raw, p) && idx
                    == era::slot_index_of(raw[p].data)->Ok_0;
            let pos = v.block_index_pos;
            let len = idx.offsets.len() as int;
            lemma_used(idx.offsets, pos, len);
            assert(idx.offsets.take(len) =~= idx.offsets);
            assert forall|q: int| #[trigger] block_index_at(raw, q, n) implies q == p by {
                assert(block_index_like(raw, q));
                assert(block_index_like(raw, p));
            }
            match v.format {
                Some(f) => {
                    assert(f is Era <==> beacon_first(raw, n));
                    lemma_slots(raw, f, pos, idx, len);
                },
                None => {
                    assert(v.block_count == 0) by {
                        lemma_no_block(raw, n);
                    }
                    if verify::indexed_count(idx.offsets, pos, len) == 0 {
                        lemma_unused(raw, pos, idx, len);
                    }
                },
            }
            assert(sound_block_index(raw, p) <==> verify::block_index_errors(raw, v).len() == 0);
        },
    }
}

/// Without a beacon block and a header there is no block.
proof fn lemma_no_block(raw: Seq<EntryView>, n: int)
    requires
        1 <= n <= raw.len(),
        forall|k: int|
            1 <= k < n ==> !is_of(#[trigger] raw[k], 0x01, 0x00) && !era1_part(raw[k]),
    ensures
        raw.subrange(1, n).filter(begins_block()).len() == 0,
    decreases n,
{
    if n > 1 {
        lemma_no_block(raw, n - 1);
        let before = raw.subrange(1, n - 1);
        before.lemma_filter_push(raw[n - 1], begins_block());
        assert(before.push(raw[n - 1]) =~= raw.subrange(1, n));
        assert(!era1_part(raw[n - 1]));
    } else {
        reveal(Seq::filter);
        assert(raw.subrange(1, n) =~= Seq::empty());
    }
}

/// A file of sound entries has a sound state index, or no state, if and only if
/// verification finds no error in it.
#[verifier::spinoff_prover]
proof fn lemma_state_index(raw: Seq<EntryView>)
    requires
        1 <= raw.len() <= usize::MAX,
        e2store::file_bytes(raw).len() <= u64::MAX,
        forall|i: int| 1 <= i < raw.len() ==> sound(#[trigger] raw[i]),
    ensures
        verify::state_index_errors(pass(raw, raw.len() as int)).len() == 0 <==> forall|s: int|
            #[trigger] state_at(raw, s, raw.len() as int) ==> exists|q: int| #[trigger]
                state_index_at(raw, q, raw.len() as int) && sound_state_index(raw, q, s),
{
    let n = raw.len() as int;
    let v = pass(raw, n);
    lemma_indexes(raw, n);
    lemma_state(raw, n);
    match v.state_pos {
        None => {
            assert forall|s: int| !#[trigger] state_at(raw, s, n) by {
                if state_at(raw, s, n) {
                    assert(is_of(raw[s], 0x02, 0x00));
                }
            }
        },
        Some(at) => {
            let s = choose|s: int| #[trigger]
                state_at(raw, s, n) && at == layout::place_of(raw, s);
            assert forall|t: int| #[trigger] state_at(raw, t, n) implies t == s by {
                assert(is_of(raw[s], 0x02, 0x00));
                assert(is_of(raw[t], 0x02, 0x00));
            }
            match v.state_index {
                None => {
                    assert forall|q: int| !#[trigger] state_index_at(raw, q, n) by {
                        if state_index_at(raw, q, n) {
                            assert(state_index_like(raw, q));
                        }
                    }
                },
                Some(idx) => {
                    let q = choose|q: int| #[trigger]
                        state_index_at(raw, q, n) && v.state_index_pos == layout::place_of(raw, q)
                            && idx == era::slot_index_of(raw[q].data)->Ok_0;
                    assert forall|t: int| #[trigger] state_index_at(raw, t, n) implies t == q by {
                        assert(state_index_like(raw, t));
                        assert(state_index_like(raw, q));
                    }
                    assert(sound_state_index(raw, q, s) <==> verify::state_index_errors(v).len()
                        == 0);
                },
            }
        },
    }
}

/// The last group is whole if verification finds no error in it.
proof fn lemma_groups(raw: Seq<EntryView>)
    requires
        1 <= raw.len() <= usize::MAX,
        e2store::file_bytes(raw).len() <= u64::MAX,
    ensures
        whole_groups(raw) <==> closed_groups(raw, raw.len() as int) && scan::final_group_errors(
            pass(raw, raw.len() as int).group,
        ).len() == 0,
{
    let n = raw.len() as int;
    lemma_group(raw, n);
    let group = pass(raw, n).group;
    let last = group->Some_0.header_idx as int;
    if whole_groups(raw) {
        if group is Some {
            assert(is_of(raw[last], 0x03, 0x00));
        }
    }
    if closed_groups(raw, n) && scan::final_group_errors(group).len() == 0 {
        assert forall|h: int| 1 <= h < n && is_of(#[trigger] raw[h], 0x03, 0x00) implies followed_by(
            raw,
            h,
            0x04,
            n,
        ) && followed_by(raw, h, 0x06, n) by {
            assert(occurs(raw, 0x03, 0x00, n));
            if h != last {
                assert(1 <= h < last < n && is_of(raw[last], 0x03, 0x00));
            }
        }
    }
}

/// A file is valid if and only if its entries are as they should be.
pub proof fn valid_if_flawless(data: Seq<u8>)
    requires
        e2store::all_entries_of(data) is Ok,
        data.len() <= usize::MAX,
    ensures
        verify::verification_of(data).valid <==> flawless(e2store::all_entries_of(data)->Ok_0),
{
    let raw = e2store::all_entries_of(data)->Ok_0;
    let n = raw.len() as int;
    lemma_sizes(data);
    layout::type_codes(raw[0].header.typ);
    lemma_errors(raw, n);
    lemma_groups(raw);
    if forall|i: int| 1 <= i < n ==> sound(#[trigger] raw[i]) {
        lemma_block_index(raw);
        lemma_state_index(raw);
    }
}

/// The entries of a file have room in it.
pub proof fn lemma_sizes(data: Seq<u8>)
    requires
        e2store::all_entries_of(data) is Ok,
        data.len() <= usize::MAX,
    ensures
        1 <= e2store::all_entries_of(data)->Ok_0.len() <= usize::MAX,
        e2store::file_bytes(e2store::all_entries_of(data)->Ok_0).len() <= data.len() <= u64::MAX,
{
    let raw = e2store::all_entries_of(data)->Ok_0;
    e2store::entries_cover_source(data);
    layout::file_layout(raw, 0);
    lemma_many(raw, raw.len() as int);
}

proof fn lemma_many(raw: Seq<EntryView>, n: int)
    requires
        0 <= n,
    ensures
        layout::place_of(raw, n) >= n,
    decreases n,
{
    if n > 0 {
        lemma_many(raw, n - 1);
    }
}

/// In a file that verification finds no error in, every ERA1 header is followed
/// by a body and a total difficulty before the next header or the end.
pub proof fn valid_groups_complete(data: Seq<u8>, h: int)
    requires
        e2store::all_entries_of(data) is Ok,
        data.len() <= usize::MAX,
        verify::verification_of(data).errors.len() == 0,
        1 <= h < e2store::all_entries_of(data)->Ok_0.len(),
        is_of(e2store::all_entries_of(data)->Ok_0[h], 0x03, 0x00),
    ensures
        ({
            let raw = e2store::all_entries_of(data)->Ok_0;
            &&& exists|b: int|
                h < b < raw.len() && is_of(#[trigger] raw[b], 0x04, 0x00) && forall|j: int|
                    h < j < b ==> !is_of(#[trigger] raw[j], 0x03, 0x00)
            &&& exists|t: int|
                h < t < raw.len() && is_of(#[trigger] raw[t], 0x06, 0x00) && forall|j: int|
                    h < j < t ==> !is_of(#[trigger] raw[j], 0x03, 0x00)
        }),
{
    let raw = e2store::all_entries_of(data)->Ok_0;
    valid_if_flawless(data);
    verify::valid_without_errors(data);
    assert(followed_by(raw, h, 0x04, raw.len() as int) && followed_by(
        raw,
        h,
        0x06,
        raw.len() as int,
    ));
}

/// Verification counts the beacon blocks and the headers of ERA1 blocks, tells
/// whether there is a state, and takes the format from the first entry that is
/// a beacon block or a part of an ERA1 block.
pub proof fn verification_tells(data: Seq<u8>)
    requires
        e2store::all_entries_of(data) is Ok,
        data.len() <= usize::MAX,
    ensures
        ({
            let raw = e2store::all_entries_of(data)->Ok_0;
            let n = raw.len() as int;
            let r = verify::verification_of(data);
            &&& r.block_count == raw.skip(1).filter(begins_block()).len()
            &&& r.state_present <==> exists|k: int|
                1 <= k < n && is_of(#[trigger] raw[k], 0x02, 0x00)
            &&& beacon_first(raw, n) ==> r.format == Some("ERA"@)
            &&& execution_first(raw, n) ==> r.format == Some("ERA1"@)
            &&& r.format is None <==> !beacon_first(raw, n) && !execution_first(raw, n)
        }),
{
    let raw = e2store::all_entries_of(data)->Ok_0;
    let n = raw.len() as int;
    lemma_sizes(data);
    layout::type_codes(raw[0].header.typ);
    lemma_count(raw, n);
    lemma_state(raw, n);
    lemma_format(raw, n);
    assert(raw.subrange(1, n) =~= raw.skip(1));
    if occurs(raw, 0x02, 0x00, n) {
        let j = choose|j: int| 1 <= j < n && is_of(#[trigger] raw[j], 0x02, 0x00);
        assert(is_of(raw[j], 0x02, 0x00));
    }
}

/// What cannot be read as entries, or does not start with a version, is not
/// valid: there is one error, and nothing is told of the file.
pub proof fn unreadable_invalid(data: Seq<u8>)
    requires
        e2store::all_entries_of(data) is Err,
    ensures
        ({
            let r = verify::verification_of(data);
            &&& !r.valid
            &&& r.errors.len() == 1
            &&& r.warnings.len() == 0
            &&& r.format is None
            &&& r.block_count == 0
            &&& !r.state_present
        }),
{
}

} // verus!
