//! Where the parts of a built file stand, and what its indexes say.

use vstd::prelude::*;

use crate::format::e2store;
use crate::format::era;
use crate::format::laws as layout;
use crate::write::laws;
use crate::write::EraBuilderView;

verus! {

/// The lowest and the highest slot are those of some blocks, and no block is
/// outside.
proof fn lemma_slot_bounds(blocks: Seq<(u64, Seq<u8>)>)
    requires
        blocks.len() > 0,
    ensures
        forall|i: int|
            0 <= i < blocks.len() ==> crate::write::min_slot(blocks) <= (#[trigger] blocks[i]).0
                <= crate::write::max_slot(blocks),
        exists|i: int| 0 <= i < blocks.len() && (#[trigger] blocks[i]).0 == crate::write::min_slot(blocks),
        exists|i: int| 0 <= i < blocks.len() && (#[trigger] blocks[i]).0 == crate::write::max_slot(blocks),
    decreases blocks.len(),
{
    let last = blocks.len() - 1;
    if last > 0 {
        let front = blocks.drop_last();
        lemma_slot_bounds(front);
        let low = choose|i: int|
            0 <= i < front.len() && (#[trigger] front[i]).0 == crate::write::min_slot(front);
        let high = choose|i: int|
            0 <= i < front.len() && (#[trigger] front[i]).0 == crate::write::max_slot(front);
        assert(blocks[low] == front[low]);
        assert(blocks[high] == front[high]);
        assert(blocks[last].0 == blocks.last().0);
        assert forall|i: int| 0 <= i < blocks.len() implies crate::write::min_slot(blocks) <= (
        #[trigger] blocks[i]).0 <= crate::write::max_slot(blocks) by {
            if i < last {
                assert(blocks[i] == front[i]);
            }
        }
    } else {
        assert(blocks[0].0 == blocks.first().0);
    }
}

/// A built file holds a version without data, the blocks in the order in which
/// they were added, the state if one was set, the block index, and an index for
/// the state if there is one. Both indexes are generic slot indexes.
pub proof fn built_file_holds(v: EraBuilderView)
    requires
        v.fits(),
    ensures
        ({
            let out = e2store::stream_entries(e2store::file_bytes(v.entries()));
            let n = v.blocks.len() as int;
            let at = if v.state is Some {
                n + 2
            } else {
                n + 1
            };
            &&& e2store::stream_failure(e2store::file_bytes(v.entries())) is None
            &&& layout::has_code(out[0].header.typ, 0x65, 0x32) && out[0].data.len() == 0
            &&& forall|i: int|
                0 <= i < n ==> layout::has_code((#[trigger] out[1 + i]).header.typ, 0x01, 0x00)
                    && out[1 + i].data == v.blocks[i].1
            &&& v.state matches Some(s) ==> layout::has_code(out[n + 1].header.typ, 0x02, 0x00)
                && out[n + 1].data == s.1
            &&& layout::has_code(out[at].header.typ, 0x69, 0x32)
            &&& v.state is Some ==> out.len() == at + 2 && layout::has_code(
                out[at + 1].header.typ,
                0x69,
                0x32,
            )
            &&& v.state is None ==> out.len() == at + 1
        }),
{
    let n = v.blocks.len() as int;
    laws::lemma_builder_entries(v);
    e2store::entries_read_back(v.entries());
    let out = v.entries();
    layout::type_codes(out[0].header.typ);
    assert forall|i: int| 0 <= i < n implies layout::has_code(
        (#[trigger] out[1 + i]).header.typ,
        0x01,
        0x00,
    ) && out[1 + i].data == v.blocks[i].1 by {
        layout::type_codes(out[1 + i].header.typ);
    }
    layout::type_codes(out[n + 1].header.typ);
    layout::type_codes(out[n + 2].header.typ);
    layout::type_codes(out[n + 3].header.typ);
}

/// Offsets are differences of places.
proof fn lemma_offset(base: int, pos: int)
    requires
        0 <= pos < base <= i64::MAX,
    ensures
        crate::write::offset_from(base, pos) == pos - base,
{
    laws::offset_leads_back(base, pos);
}

/// Where the indexes stand, and where the blocks and the state do.
proof fn lemma_built_places(v: EraBuilderView, i: int)
    requires
        v.fits(),
        e2store::file_bytes(v.entries()).len() <= i64::MAX,
        0 <= i <= v.blocks.len(),
    ensures
        ({
            let out = v.entries();
            let at = v.content().len() as int;
            &&& layout::place_of(out, at) == v.index_pos() <= i64::MAX
            &&& layout::place_of(out, 1 + i) == 8 + crate::write::blocks_size(v.blocks.take(i))
            &&& 1 + i < at ==> layout::place_of(out, 1 + i) < v.index_pos()
        }),
{
    let out = v.entries();
    let at = v.content().len() as int;
    laws::lemma_builder_entries(v);
    layout::file_layout(out, at);
    layout::file_layout(out, 1 + i);
    laws::lemma_block_entry_pos(v, i);
    if 1 + i < at {
        laws::lemma_pos_order(out, 1 + i, at);
    }
}

/// The offset for the slot of a block.
#[verifier::spinoff_prover]
#[verifier::rlimit(60)]
proof fn lemma_built_offset(v: EraBuilderView, i: int)
    requires
        v.wf(),
        v.fits(),
        e2store::file_bytes(v.entries()).len() <= i64::MAX,
        0 <= i < v.blocks.len(),
    ensures
        ({
            let idx = v.block_index();
            let slot = v.blocks[i].0;
            &&& idx.starting_slot <= slot < idx.starting_slot + idx.offsets.len()
            &&& v.index_pos() + idx.offsets[slot - idx.starting_slot] == layout::place_of(
                v.entries(),
                1 + i,
            )
        }),
{
    let idx = v.block_index();
    let slot = v.blocks[i].0;
    let k = slot - idx.starting_slot;
    lemma_slot_bounds(v.blocks);
    laws::lemma_builder_entries(v);
    lemma_built_places(v, i);
    laws::lemma_block_pos(v.blocks, i);
    let pos = layout::place_of(v.entries(), 1 + i) as int;
    assert((crate::write::min_slot(v.blocks) + k) as u64 == slot);
    assert(idx.offsets[k] == v.offset_of(k));
    lemma_offset(v.index_pos() as int, pos);
}

/// The block index of a built file covers the slots from the lowest to the
/// highest of its blocks. Its offset for the slot of a block leads to the entry
/// of that block, and its offset for any other slot is 0.
#[verifier::spinoff_prover]
#[verifier::rlimit(60)]
pub proof fn built_block_index(v: EraBuilderView, i: int, j: int)
    requires
        v.wf(),
        v.fits(),
        e2store::file_bytes(v.entries()).len() <= i64::MAX,
    ensures
        ({
            let out = e2store::stream_entries(e2store::file_bytes(v.entries()));
            let n = v.blocks.len() as int;
            let at = if v.state is Some {
                n + 2
            } else {
                n + 1
            };
            let idx = era::slot_index_of(out[at].data)->Ok_0;
            &&& era::slot_index_of(out[at].data) is Ok
            &&& idx.count == idx.offsets.len()
            &&& n == 0 ==> idx.starting_slot == 0 && idx.offsets.len() == 0
            &&& n > 0 ==> exists|k: int|
                0 <= k < n && (#[trigger] v.blocks[k]).0 == idx.starting_slot
            &&& n > 0 ==> exists|k: int|
                0 <= k < n && (#[trigger] v.blocks[k]).0 == idx.starting_slot + idx.offsets.len()
                    - 1
            &&& 0 <= i < n ==> idx.starting_slot <= v.blocks[i].0 < idx.starting_slot
                + idx.offsets.len() && layout::place_of(out, at) + idx.offsets[v.blocks[i].0
                - idx.starting_slot] == layout::place_of(out, 1 + i)
            &&& 0 <= j < idx.offsets.len() && !v.has_slot((idx.starting_slot + j) as u64)
                ==> idx.offsets[j] == 0
        }),
{
    let out = v.entries();
    let n = v.blocks.len() as int;
    let at = v.content().len() as int;
    let idx = v.block_index();
    laws::lemma_builder_entries(v);
    e2store::entries_read_back(out);
    era::slot_index_roundtrip(idx);
    lemma_built_places(v, 0);
    if n > 0 {
        lemma_slot_bounds(v.blocks);
    }
    if 0 <= i < n {
        lemma_built_offset(v, i);
    }
    if 0 <= j < idx.offsets.len() && !v.has_slot((idx.starting_slot + j) as u64) {
        let slot = (idx.starting_slot + j) as u64;
        assert forall|k: int| 0 <= k < v.blocks.len() implies (#[trigger] v.blocks[k]).0
            != slot by {}
        laws::lemma_no_block_pos(v.blocks, slot);
    }
}

/// The index for the state of a built file has the slot of the state and one
/// offset, which leads to the state.
#[verifier::spinoff_prover]
#[verifier::rlimit(60)]
pub proof fn built_state_index(v: EraBuilderView)
    requires
        v.fits(),
        v.state is Some,
        e2store::file_bytes(v.entries()).len() <= i64::MAX,
    ensures
        ({
            let out = e2store::stream_entries(e2store::file_bytes(v.entries()));
            let n = v.blocks.len() as int;
            let idx = era::slot_index_of(out[n + 3].data)->Ok_0;
            &&& era::slot_index_of(out[n + 3].data) is Ok
            &&& idx.starting_slot == v.state->Some_0.0
            &&& idx.offsets.len() == 1
            &&& idx.count == 1
            &&& layout::place_of(out, n + 3) + idx.offsets[0] == layout::place_of(out, n + 1)
        }),
{
    let out = v.entries();
    let n = v.blocks.len() as int;
    let idx = v.state_index(v.state->Some_0.0);
    laws::lemma_builder_entries(v);
    e2store::entries_read_back(out);
    era::slot_index_roundtrip(idx);
    lemma_built_places(v, n);
    assert(v.blocks.take(n) =~= v.blocks);
    era::lemma_index_len(v.block_index());
    let base = v.state_index_pos();
    let pos = v.state_pos() as int;
    assert(layout::place_of(out, n + 3) == layout::place_of(out, n + 2) + 8 + out[n + 2].data.len());
    assert(layout::place_of(out, n + 3) == base);
    assert(base <= i64::MAX) by {
        layout::file_layout(out, n + 3);
    }
    lemma_offset(base, pos);
    assert(idx.offsets[0] == pos - base);
}

/// A builder fits if and only if the data of each of its entries has a length
/// that a header can tell.
#[verifier::spinoff_prover]
pub proof fn entries_fit(v: EraBuilderView)
    ensures
        v.fits() <==> forall|i: int|
            0 <= i < v.entries().len() ==> (#[trigger] v.entries()[i]).data.len() <= u32::MAX,
{
    let out = v.entries();
    let n = v.blocks.len() as int;
    let at = v.content().len() as int;
    if v.fits() {
        laws::lemma_builder_entries(v);
        assert forall|i: int| 0 <= i < out.len() implies (#[trigger] out[i]).data.len()
            <= u32::MAX by {
            assert(out[i].wf());
        }
    }
    if forall|i: int| 0 <= i < out.len() ==> (#[trigger] out[i]).data.len() <= u32::MAX {
        if n > 0 {
            lemma_slot_bounds(v.blocks);
        }
        assert forall|i: int| 0 <= i < n implies (#[trigger] v.blocks[i]).1.len() <= u32::MAX by {
            assert(out[1 + i].data == v.blocks[i].1);
        }
        if v.state is Some {
            assert(out[n + 1].data == v.state->Some_0.1);
        }
        era::lemma_index_len(v.block_index());
        assert(out[at].data == v.block_index().encoded());
    }
}

/// A block that is added comes after those that were added before, and nothing
/// else changes.
#[verifier::spinoff_prover]
#[verifier::rlimit(60)]
pub proof fn block_added_last(v: EraBuilderView, slot: u64, data: Seq<u8>)
    requires
        v.with_block(slot, data).fits(),
        v.fits(),
    ensures
        ({
            let w = v.with_block(slot, data);
            let n = v.blocks.len() as int;
            let before = e2store::stream_entries(e2store::file_bytes(v.entries()));
            let after = e2store::stream_entries(e2store::file_bytes(w.entries()));
            &&& w.blocks.len() == n + 1
            &&& w.blocks[n] == (slot, data)
            &&& w.state == v.state
            &&& forall|i: int| 0 <= i < n ==> #[trigger] w.blocks[i] == v.blocks[i]
            &&& after.len() == before.len() + 1
            &&& after.take(n + 1) == before.take(n + 1)
            &&& layout::has_code(after[n + 1].header.typ, 0x01, 0x00)
            &&& after[n + 1].data == data
        }),
{
    let w = v.with_block(slot, data);
    let n = v.blocks.len() as int;
    laws::lemma_builder_entries(v);
    laws::lemma_builder_entries(w);
    e2store::entries_read_back(v.entries());
    e2store::entries_read_back(w.entries());
    let before = v.entries();
    let after = w.entries();
    assert forall|i: int| 0 <= i < n + 1 implies #[trigger] after[i] == before[i] by {
        if i > 0 {
            assert(after[1 + (i - 1)] == before[1 + (i - 1)]);
        }
    }
    assert(after.take(n + 1) =~= before.take(n + 1));
    assert(after[1 + n].data == w.blocks[n].1);
    layout::type_codes(after[n + 1].header.typ);
}

/// A new builder has no block and no state, and makes a file of a version and an
/// index without offsets.
pub proof fn new_builder_empty()
    ensures
        ({
            let v = crate::write::empty_builder();
            let out = e2store::stream_entries(e2store::file_bytes(v.entries()));
            &&& v.blocks.len() == 0
            &&& v.state is None
            &&& v.wf()
            &&& out.len() == 2
            &&& layout::has_code(out[0].header.typ, 0x65, 0x32)
            &&& layout::has_code(out[1].header.typ, 0x69, 0x32)
            &&& era::slot_index_of(out[1].data) matches Ok(idx) && idx.offsets.len() == 0
        }),
{
    let v = crate::write::empty_builder();
    laws::lemma_builder_entries(v);
    e2store::entries_read_back(v.entries());
    era::slot_index_roundtrip(v.block_index());
    layout::type_codes(v.entries()[0].header.typ);
    layout::type_codes(v.entries()[1].header.typ);
}

} // verus!
