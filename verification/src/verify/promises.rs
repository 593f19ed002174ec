//! What a valid file can be relied on for.

use vstd::prelude::*;

use crate::format::e2store;
use crate::format::e2store::EntryView;
use crate::format::era;
use crate::format::laws as layout;
use crate::read::access;
use crate::read::block::EraBlockReaderView;
use crate::read::laws as reading;
use crate::read::random::EraRandomReaderView;
use crate::read::typed::EraReaderView;
use crate::verify;
use crate::verify::validity;

verus! {

/// The entries that are sound are those that can be decoded.
pub proof fn sound_entries_decode(e: EntryView)
    ensures
        validity::sound(e) <==> reading::decodable(e),
{
    layout::type_codes(e.header.typ);
}

/// How many blocks are streamed from the entry `i` on.
proof fn lemma_streamed_count(raw: Seq<EntryView>, i: int)
    requires
        0 <= i <= raw.len(),
    ensures
        reading::beacon_blocks_of(raw, i).len() + reading::era1_blocks_of(raw, i).len()
            == raw.skip(i).filter(validity::begins_block()).len(),
    decreases raw.len() - i,
{
    if i < raw.len() {
        lemma_streamed_count(raw, i + 1);
        layout::type_codes(raw[i].header.typ);
        let rest = raw.skip(i + 1);
        let p = validity::begins_block();
        assert(raw.skip(i) =~= seq![raw[i]] + rest);
        Seq::filter_distributes_over_add(seq![raw[i]], rest, p);
        let none = Seq::<EntryView>::empty();
        none.lemma_filter_push(raw[i], p);
        assert(none.push(raw[i]) =~= seq![raw[i]]);
        reveal(Seq::filter);
        assert(none.filter(p) =~= none);
    } else {
        reveal(Seq::filter);
    }
}

/// A valid file can be streamed to its end, by typed entries and by blocks, and
/// there are as many blocks as verification counts.
pub proof fn valid_file_streams(data: Seq<u8>)
    requires
        e2store::all_entries_of(data) is Ok,
        data.len() <= usize::MAX,
        verify::verification_of(data).valid,
    ensures
        ({
            let raw = e2store::all_entries_of(data)->Ok_0;
            &&& EraReaderView::start(data).failure() is None
            &&& EraReaderView::start(data).entries().len() == raw.len() - 1
            &&& EraBlockReaderView::start(data).failure() is None
            &&& EraBlockReaderView::start(data).blocks().len() == verify::verification_of(
                data,
            ).block_count
        }),
{
    let raw = e2store::all_entries_of(data)->Ok_0;
    validity::valid_if_flawless(data);
    validity::verification_tells(data);
    assert forall|i: int| 1 <= i < raw.len() implies reading::decodable(#[trigger] raw[i]) by {
        assert(validity::sound(raw[i]));
        sound_entries_decode(raw[i]);
    }
    reading::typed_entries_agree(data);
    reading::blocks_streamed(data);
    validity::lemma_sizes(data);
    lemma_streamed_count(raw, 1);
}

/// In a valid file whose block index is the one that slots are looked up in,
/// every slot whose offset is used gives a block: a beacon block in an ERA file,
/// and an ERA1 block in an ERA1 file.
pub proof fn valid_index_leads_to_blocks(data: Seq<u8>, p: int, slot: u64)
    requires
        e2store::all_entries_of(data) is Ok,
        data.len() <= usize::MAX,
        data.len() <= i64::MAX,
        verify::verification_of(data).valid,
        access::index_place(e2store::all_entries_of(data)->Ok_0, p),
        ({
            let raw = e2store::all_entries_of(data)->Ok_0;
            let idx = era::slot_index_of(raw[p].data)->Ok_0;
            &&& validity::block_index_at(raw, p, raw.len() as int)
            &&& idx.starting_slot <= slot < idx.starting_slot + idx.offsets.len() <= u64::MAX
            &&& validity::used(layout::place_of(raw, p) as int)(
                idx.offsets[slot - idx.starting_slot],
            )
        }),
    ensures
        EraRandomReaderView::open(data) matches Ok(r) && (r.block_at(slot) matches Ok(Some(b)) && (
        b is Era <==> validity::beacon_first(
            e2store::all_entries_of(data)->Ok_0,
            e2store::all_entries_of(data)->Ok_0.len() as int,
        ))),
{
    let raw = e2store::all_entries_of(data)->Ok_0;
    let n = raw.len() as int;
    validity::valid_if_flawless(data);
    validity::lemma_sizes(data);
    let q = choose|q: int| #[trigger]
        validity::block_index_at(raw, q, n) && validity::sound_block_index(raw, q);
    assert(p == q) by {
        assert(validity::block_index_like(raw, p));
        assert(validity::block_index_like(raw, q));
    }
    let idx = era::slot_index_of(raw[p].data)->Ok_0;
    assert(validity::sound(raw[p]));
    let at = layout::place_of(raw, p) as int;
    let offset = idx.offsets[slot - idx.starting_slot];
    assert(validity::leads_to_block(raw, at, offset));
    let code = if validity::beacon_first(raw, n) {
        0x01u8
    } else {
        0x03u8
    };
    let k = choose|k: int|
        1 <= k < raw.len() && layout::place_of(raw, k) == validity::byte_reached(at, offset)
            && validity::is_of(#[trigger] raw[k], code, 0x00);
    access::entries_from(data, p);
    access::entries_from(data, k);
    assert(at + offset == layout::place_of(raw, k));
    assert(access::leads_to(raw, p, idx, slot, k));
    assert(validity::sound(raw[k]));
    access::block_found(data, p, slot, k);
}

} // verus!
