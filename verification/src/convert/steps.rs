//! How a conversion goes from block to block, and where it ends.

use vstd::prelude::*;

use crate::convert;
use crate::convert::content;
use crate::convert::reindex;
use crate::convert::{Conversion, SynthesizerCall};
use crate::error;
use crate::error::Error;
use crate::format::e2store;
use crate::format::era;
use crate::read::block;
use crate::read::block::{BlockView, EraBlockReaderView};
use crate::read::random::EraRandomReaderView;
use crate::write::EraBuilderView;

verus! {

/// The slots that the index of a file lists for its blocks.
pub open spec fn listed_slots(data: Seq<u8>) -> Seq<u64> {
    match EraRandomReaderView::open(data)->Ok_0.index {
        Some(index) => reindex::slots_of(index.1),
        None => Seq::empty(),
    }
}

/// Whether the first `n` blocks can be converted: they are ERA1 blocks, the
/// synthesizer has a reply for each, and no two have the same slot.
pub open spec fn converts<E>(
    blocks: Seq<BlockView>,
    slots: Seq<u64>,
    replies: Seq<Result<Seq<u8>, E>>,
    n: int,
) -> bool {
    &&& n <= blocks.len()
    &&& n <= replies.len()
    &&& n <= u64::MAX
    &&& forall|i: int| 0 <= i < n ==> (#[trigger] blocks[i]) is Era1
    &&& forall|i: int| 0 <= i < n ==> (#[trigger] replies[i]) is Ok
    &&& forall|i: int, j: int|
        0 <= i < j < n ==> #[trigger] content::slot_of(slots, i) != #[trigger] content::slot_of(
            slots,
            j,
        )
}

/// A builder that holds the first `k` blocks, converted.
spec fn holds_first<E>(
    b: EraBuilderView,
    slots: Seq<u64>,
    replies: Seq<Result<Seq<u8>, E>>,
    k: int,
) -> bool {
    &&& b.blocks.len() == k
    &&& b.state is None
    &&& forall|i: int|
        0 <= i < k ==> (#[trigger] b.blocks[i]).0 == content::slot_of(slots, i) && replies[i] is Ok
            && b.blocks[i].1 == era::snappy_encoded(replies[i]->Ok_0)
}

/// The conversion comes to the block `n`, with those before converted.
proof fn lemma_comes_to<E>(
    v: EraBlockReaderView,
    all: Seq<BlockView>,
    slots: Seq<u64>,
    replies: Seq<Result<Seq<u8>, E>>,
    k: int,
    b: EraBuilderView,
    n: int,
) -> (r: (EraBlockReaderView, EraBuilderView))
    requires
        0 <= k <= n,
        converts(all, slots, replies, n),
        all.skip(k) == v.blocks(),
        holds_first(b, slots, replies, k),
    ensures
        convert::conversion(v, slots, replies, k as nat, b) == convert::conversion(
            r.0,
            slots,
            replies,
            n as nat,
            r.1,
        ),
        r.0.blocks() == all.skip(n),
        r.0.failure() == v.failure(),
        holds_first(r.1, slots, replies, n),
    decreases n - k,
{
    if k == n {
        (v, b)
    } else {
        block::lemma_after_block(v);
        assert(all[k] is Era1);
        assert(all.skip(k)[0] == all[k]);
        assert(v.blocks().len() > 0);
        assert(v.next() matches Ok(Some(x)) && x == all[k]);
        assert(v.blocks() == seq![all[k]] + v.after().blocks());
        assert(all.skip(k).skip(1) =~= v.after().blocks());
        assert(all.skip(k + 1) =~= all.skip(k).skip(1));
        assert(replies[k] is Ok);
        let slot = reindex::assigned_slot(slots, k);
        assert(slot == content::slot_of(slots, k));
        assert(!b.has_slot(slot)) by {
            if b.has_slot(slot) {
                let i = choose|i: int| 0 <= i < b.blocks.len() && (#[trigger] b.blocks[i]).0
                    == slot;
                assert(content::slot_of(slots, i) != content::slot_of(slots, k));
            }
        }
        let next = b.with_block(slot, era::snappy_encoded(replies[k]->Ok_0));
        assert(holds_first(next, slots, replies, k + 1)) by {
            assert forall|i: int| 0 <= i < k + 1 implies (#[trigger] next.blocks[i]).0
                == content::slot_of(slots, i) && replies[i] is Ok && next.blocks[i].1
                == era::snappy_encoded(replies[i]->Ok_0) by {
                if i < k {
                    assert(next.blocks[i] == b.blocks[i]);
                }
            }
        }
        lemma_comes_to(v.after(), all, slots, replies, k + 1, next, n)
    }
}

/// A conversion goes from block to block. After the first `n` blocks it ends
/// with the file of these if there is no more, compressed and each under its
/// slot; with the error if the next cannot be read; with an error if the next is
/// a beacon block; and if the next is an ERA1 block, with what the synthesizer
/// says if it refuses it, or with nothing if its slot has been used.
pub proof fn conversion_ends<E>(data: Seq<u8>, replies: Seq<Result<Seq<u8>, E>>, n: int)
    requires
        EraRandomReaderView::open(data) is Ok,
        0 <= n < u64::MAX,
        converts(EraBlockReaderView::start(data).blocks(), listed_slots(data), replies, n),
    ensures
        ({
            let blocks = EraBlockReaderView::start(data).blocks();
            let failure = EraBlockReaderView::start(data).failure();
            let slots = listed_slots(data);
            let end = convert::conversion_of(data, replies);
            &&& n == blocks.len() && failure is None ==> (end matches Conversion::Built(b)
                && b.blocks.len() == n && b.state is None && forall|i: int|
                0 <= i < n ==> (#[trigger] b.blocks[i]).0 == content::slot_of(slots, i)
                    && b.blocks[i].1 == era::snappy_encoded(replies[i]->Ok_0))
            &&& n == blocks.len() ==> (failure matches Some(e) ==> end == Conversion::<E>::Failed(e))
            &&& n < blocks.len() && blocks[n] is Era ==> end == Conversion::<E>::Failed(
                error::invalid_era_view("expected ERA1 blocks in input"@),
            )
            &&& n < blocks.len() && blocks[n] is Era1 && n < replies.len() ==> (
            replies[n] matches Err(e) ==> end == Conversion::Refused(e))
            &&& n < blocks.len() && blocks[n] is Era1 && n < replies.len() && replies[n] is Ok && (
            exists|i: int|
                0 <= i < n && #[trigger] content::slot_of(slots, i) == content::slot_of(slots, n))
                ==> end is Duplicate
        }),
{
    let v = EraBlockReaderView::start(data);
    let all = v.blocks();
    let slots = listed_slots(data);
    let none = crate::write::empty_builder();
    assert(all.skip(0) =~= all);
    assert(holds_first(none, slots, replies, 0));
    let (w, b) = lemma_comes_to(v, all, slots, replies, 0, none, n);
    block::lemma_after_block(w);
    if n < all.len() {
        assert(all.skip(n)[0] == all[n]);
        assert(w.blocks().len() > 0);
        assert(w.next() matches Ok(Some(x)) && x == all[n]);
        let slot = reindex::assigned_slot(slots, n);
        assert(slot == content::slot_of(slots, n));
        if exists|i: int|
            0 <= i < n && #[trigger] content::slot_of(slots, i) == content::slot_of(slots, n) {
            let i = choose|i: int|
                0 <= i < n && #[trigger] content::slot_of(slots, i) == content::slot_of(slots, n);
            assert(b.blocks[i].0 == slot);
            assert(b.has_slot(slot));
        }
    } else {
        assert(all.skip(n).len() == 0);
        assert(w.blocks().len() == 0);
        match w.next() {
            Ok(Some(x)) => {
                assert(w.blocks() == seq![x] + w.after().blocks());
            },
            _ => {},
        }
    }
}

/// What cannot be opened is not converted.
pub proof fn unopened_not_converted<E>(data: Seq<u8>, replies: Seq<Result<Seq<u8>, E>>)
    requires
        EraRandomReaderView::open(data) is Err,
    ensures
        convert::conversion_of(data, replies) == Conversion::<E>::Failed(
            EraRandomReaderView::open(data)->Err_0,
        ),
{
}

/// The synthesizer is called on the blocks of the file in order, each with its
/// header, its body, its receipts and its total difficulty.
pub proof fn calls_get_blocks<E>(data: Seq<u8>, calls: Seq<SynthesizerCall<E>>, i: int)
    requires
        convert::on_first_blocks(data, calls),
        0 <= i < calls.len(),
    ensures
        calls.len() <= EraBlockReaderView::start(data).blocks().len(),
        EraBlockReaderView::start(data).blocks()[i] matches BlockView::Era1(b) && b.header
            == calls[i].block.header@ && b.body == calls[i].block.body@ && b.receipts
            == calls[i].block.receipts@ && b.total_difficulty == calls[i].block.total_difficulty,
{
}

/// A reply is what the synthesizer left in the buffer, unless it failed.
pub proof fn replies_told<E>(calls: Seq<SynthesizerCall<E>>, i: int)
    requires
        0 <= i < calls.len(),
    ensures
        convert::replies_of(calls).len() == calls.len(),
        calls[i].result is Ok ==> convert::replies_of(calls)[i] == Ok::<Seq<u8>, E>(
            calls[i].buffer,
        ),
        calls[i].result matches Err(e) ==> convert::replies_of(calls)[i] == Err::<Seq<u8>, E>(e),
{
}

/// Nothing is written unless the conversion succeeds, and then it is the file of
/// the blocks that were built. A refusal is handed on as it is.
pub proof fn written_on_success<E: From<Error>>(
    c: Conversion<E>,
    r: Result<Option<()>, E>,
    written: Seq<u8>,
)
    requires
        convert::conversion_result(c, r, written),
    ensures
        r != Ok::<Option<()>, E>(Some(())) ==> written.len() == 0,
        r == Ok::<Option<()>, E>(Some(())) ==> (c matches Conversion::Built(b) && b.fits()
            && e2store::stream_entries(written) == b.entries()),
        c matches Conversion::Built(b) && b.fits() ==> r == Ok::<Option<()>, E>(Some(())),
        c matches Conversion::Refused(e) ==> r == Err::<Option<()>, E>(e),
        c is Failed ==> r is Err,
        c is Duplicate ==> r == Ok::<Option<()>, E>(None),
{
    match c {
        Conversion::Built(b) => {
            if b.fits() {
                crate::write::laws::lemma_builder_entries(b);
                e2store::entries_read_back(b.entries());
            }
        },
        _ => {},
    }
}

} // verus!
