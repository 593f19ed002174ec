//! Structural transformations and extraction utilities for ERA files.
//!
//! The transformations operate at the e2store container level without
//! modifying or parsing block payloads.
//!
//! # Available transformations
//!
//! | Module | Description |
//! |---|---|
//! | [`reindex`] | Rebuild indexes from scratch (fast, no decompression) |
//! | [`strip`]   | Remove optional entries (receipts, state) |
//! | [`split`]   | Extract blocks to individual `.snappy` files |
//!
//! # ERA1 to ERA conversion
//!
//! A true ERA1 to ERA conversion requires wrapping execution blocks in SSZ
//! `SignedBeaconBlock` structures. Because SSZ schemas change across forks
//! (Bellatrix, Capella, Deneb, etc.), this is left to your consensus library
//! of choice.
//!
//! Use [`era1_to_era`] to handle all e2store indexing, compression, and file
//! layout while you provide a closure that writes the SSZ bytes into a buffer,
//! which is reused across all blocks.

pub mod content;
pub mod laws;
pub mod reindex;
pub mod split;
pub mod steps;
pub mod strip;

use vstd::prelude::*;

use crate::error;
use crate::error::{Error, ErrorView};
use crate::format::e2store;
use crate::format::era;
use crate::read::block::{Block, BlockView, Era1Block, EraBlockReader, EraBlockReaderView};
use crate::read::random::{EraRandomReader, EraRandomReaderView};
use crate::write::{EraBuilder, EraBuilderView};

verus! {

/// Snappy-compress `data` into `out`.
pub fn compress_into(data: &[u8], out: &mut Vec<u8>) -> (r: Result<(), Error>)
    ensures
        r is Ok,
        final(out)@ == era::snappy_encoded(data@),
        era::reads_back(era::snappy_decoded(final(out)@), data@),
{
    out.clear();
    match era::payload_from(era::snappy_encode(data)) {
        Ok(compressed) => {
            *out = compressed;
            Ok(())
        },
        Err(e) => Err(e),
    }
}

/// How a conversion ends.
pub enum Conversion<E> {
    /// The blocks of the ERA file.
    Built(EraBuilderView),
    /// The input cannot be read, or is no ERA1 file.
    Failed(ErrorView),
    /// The synthesizer refused a block.
    Refused(E),
    /// Two blocks have the same slot.
    Duplicate,
    /// The replies do not reach to the end.
    Unfinished,
}

/// How the conversion of the blocks that `v` has still to deliver ends, when
/// `b` has been built from the `k` blocks before, the index gives the blocks
/// these slots and the synthesizer gives these replies.
pub open spec fn conversion<E>(
    v: EraBlockReaderView,
    slots: Seq<u64>,
    replies: Seq<Result<Seq<u8>, E>>,
    k: nat,
    b: EraBuilderView,
) -> Conversion<E>
    decreases v.measure(),
{
    proof {
        crate::read::block::lemma_after_block(v);
    }
    match v.next() {
        Err(e) => Conversion::Failed(e),
        Ok(None) => Conversion::Built(b),
        Ok(Some(BlockView::Era(_))) => Conversion::Failed(
            error::invalid_era_view("expected ERA1 blocks in input"@),
        ),
        Ok(Some(BlockView::Era1(_))) => if k >= replies.len() {
            Conversion::Unfinished
        } else {
            match replies[k as int] {
                Err(e) => Conversion::Refused(e),
                Ok(ssz) => {
                    let slot = reindex::assigned_slot(slots, k as int);
                    if b.has_slot(slot) {
                        Conversion::Duplicate
                    } else {
                        conversion(
                            v.after(),
                            slots,
                            replies,
                            k + 1,
                            b.with_block(slot, era::snappy_encoded(ssz)),
                        )
                    }
                },
            }
        },
    }
}

/// A call of the synthesizer: the block, what it left in the buffer, and its
/// result.
#[verifier::ext_equal]
pub struct SynthesizerCall<E> {
    pub block: Era1Block,
    pub buffer: Seq<u8>,
    pub result: Result<(), E>,
}

impl<E> SynthesizerCall<E> {
    /// The reply: the bytes for the block, or why it is refused.
    pub open spec fn reply(self) -> Result<Seq<u8>, E> {
        match self.result {
            Ok(()) => Ok(self.buffer),
            Err(e) => Err(e),
        }
    }
}

/// Whether `calls` are made on the first blocks that the file `data` delivers,
/// in order.
pub open spec fn on_first_blocks<E>(data: Seq<u8>, calls: Seq<SynthesizerCall<E>>) -> bool {
    let blocks = EraBlockReaderView::start(data).blocks();
    &&& calls.len() <= blocks.len()
    &&& forall|i: int|
        0 <= i < calls.len() ==> blocks[i] == BlockView::Era1((#[trigger] calls[i]).block@)
}

/// The replies of the synthesizer.
pub open spec fn replies_of<E>(calls: Seq<SynthesizerCall<E>>) -> Seq<Result<Seq<u8>, E>> {
    Seq::new(calls.len(), |i: int| calls[i].reply())
}

/// Whether `all` begins with `front`.
pub open spec fn starts_with<T>(all: Seq<T>, front: Seq<T>) -> bool {
    all.len() >= front.len() && forall|i: int|
        0 <= i < front.len() ==> #[trigger] all[i] == front[i]
}

/// The blocks that the synthesizer was called on.
pub open spec fn delivered<E>(calls: Seq<SynthesizerCall<E>>) -> Seq<BlockView> {
    Seq::new(calls.len(), |i: int| BlockView::Era1(calls[i].block@))
}

/// Whether `x` is what the caller's error type makes of an error.
pub open spec fn made_from<E: From<Error>>(x: E, e: ErrorView) -> bool {
    exists|err: Error| err@ == e && #[trigger] call_ensures(E::from, (err,), x)
}

/// Whether `r` and the bytes that were written are what a conversion that ends
/// this way comes to.
pub open spec fn conversion_result<E: From<Error>>(
    c: Conversion<E>,
    r: Result<Option<()>, E>,
    written: Seq<u8>,
) -> bool {
    match c {
        Conversion::Built(b) => if b.fits() {
            r == Ok::<Option<()>, E>(Some(())) && written == e2store::file_bytes(b.entries())
        } else {
            r == Ok::<Option<()>, E>(None) && written.len() == 0
        },
        Conversion::Duplicate => r == Ok::<Option<()>, E>(None) && written.len() == 0,
        Conversion::Refused(e) => r == Err::<Option<()>, E>(e) && written.len() == 0,
        Conversion::Failed(e) => r matches Err(x) && made_from(x, e) && written.len() == 0,
        Conversion::Unfinished => false,
    }
}

/// Whether the blocks of an ERA file that was made decompress to what the
/// synthesizer replied.
pub open spec fn readable<E>(c: Conversion<E>, replies: Seq<Result<Seq<u8>, E>>) -> bool {
    c matches Conversion::Built(b) ==> blocks_readable(b, replies)
}

/// Whether the blocks decompress to the first replies.
pub open spec fn blocks_readable<E>(
    b: EraBuilderView,
    replies: Seq<Result<Seq<u8>, E>>,
) -> bool {
    &&& b.blocks.len() <= replies.len()
    &&& forall|i: int|
        0 <= i < b.blocks.len() ==> replies[i] is Ok && era::reads_back(
            era::snappy_decoded((#[trigger] b.blocks[i]).1),
            replies[i]->Ok_0,
        )
}

/// How the conversion of the file `data` ends when the synthesizer gives these
/// replies.
pub open spec fn conversion_of<E>(data: Seq<u8>, replies: Seq<Result<Seq<u8>, E>>) -> Conversion<
    E,
> {
    match EraRandomReaderView::open(data) {
        Err(e) => Conversion::Failed(e),
        Ok(v) => conversion(
            EraBlockReaderView::start(data),
            split::indexed_slots(v),
            replies,
            0,
            crate::write::empty_builder(),
        ),
    }
}

/// Converts a stream of ERA1 blocks into an ERA file using a custom
/// synthesizer, and appends the file to `writer`.
///
/// This function handles all e2store container logic: reading ERA1 groups,
/// calling your synthesizer, Snappy-compressing the result, calculating
/// exact byte offsets, and writing a valid ERA file with correct indexes.
///
/// The `synthesizer` closure receives the block and a reusable buffer, which is
/// empty. It should write the raw SSZ bytes for a `SignedBeaconBlock` into the
/// buffer.
///
/// Returns `Ok(None)`, having written nothing, if the blocks cannot make one
/// ERA file: two of them have the same slot, or an entry has no room for its
/// data.
pub fn era1_to_era<F, E>(reader: &[u8], writer: &mut Vec<u8>, synthesizer: F) -> (r: Result<
    Option<()>,
    E,
>) where F: FnMut(&Era1Block, &mut Vec<u8>) -> Result<(), E>, E: From<Error>
    requires
        forall|b: &Era1Block, buf: &mut Vec<u8>|
            buf@.len() == 0 ==> #[trigger] call_requires(synthesizer, (b, buf)),
        forall|e: Error| #[trigger] call_requires(E::from, (e,)),
    ensures
        exists|calls: Seq<SynthesizerCall<E>>, written: Seq<u8>|
            {
                &&& #[trigger] on_first_blocks(reader@, calls)
                &&& forall|i: int|
                    0 <= i < calls.len() ==> exists|buf: &mut Vec<u8>|
                        {
                            &&& buf@.len() == 0
                            &&& final(buf)@ == (#[trigger] calls[i]).buffer
                            &&& #[trigger] call_ensures(
                                synthesizer,
                                (&calls[i].block, buf),
                                calls[i].result,
                            )
                        }
                &&& #[trigger] conversion_result(
                    conversion_of(reader@, replies_of(calls)),
                    r,
                    written,
                )
                &&& readable(conversion_of(reader@, replies_of(calls)), replies_of(calls))
                &&& final(writer)@ == old(writer)@ + written
            },
{
    let ghost before = writer@;
    let ghost mut calls: Seq<SynthesizerCall<E>> = Seq::empty();
    let ghost none: Seq<u8> = Seq::empty();
    assert(before =~= before + none);
    let mut f = synthesizer;
    let rr = match EraRandomReader::new(reader) {
        Ok(rr) => rr,
        Err(e) => {
            let x = E::from(e);
            proof {
                assert(on_first_blocks(reader@, calls));
                assert(conversion_result(
                    conversion_of(reader@, replies_of(calls)),
                    Err(x),
                    none,
                ));
            }
            return Err(x);
        },
    };
    let slots = split::indexed_block_slots(&rr);
    let mut ssz_buf: Vec<u8> = Vec::with_capacity(256 * 1024);
    let mut builder = EraBuilder::new();
    let mut block_reader = EraBlockReader::new(reader);
    let ghost start = block_reader@;
    assert(replies_of(calls) =~= Seq::empty());
    loop
        invariant
            f == synthesizer,
            forall|b: &Era1Block, buf: &mut Vec<u8>|
                buf@.len() == 0 ==> #[trigger] call_requires(f, (b, buf)),
            forall|e: Error| #[trigger] call_requires(E::from, (e,)),
            before == old(writer)@,
            writer@ == before,
            before == before + none,
            none.len() == 0,
            EraRandomReaderView::open(reader@) matches Ok(v) && slots@ == split::indexed_slots(v),
            start == EraBlockReaderView::start(reader@),
            builder@.blocks.len() == calls.len(),
            start.blocks() == delivered(calls) + block_reader@.blocks(),
            on_first_blocks(reader@, calls),
            forall|i: int|
                0 <= i < calls.len() ==> exists|buf: &mut Vec<u8>|
                    {
                        &&& buf@.len() == 0
                        &&& final(buf)@ == (#[trigger] calls[i]).buffer
                        &&& #[trigger] call_ensures(
                            synthesizer,
                            (&calls[i].block, buf),
                            calls[i].result,
                        )
                    },
            builder@.wf(),
            blocks_readable(builder@, replies_of(calls)),
            forall|all: Seq<Result<Seq<u8>, E>>|
                starts_with(all, replies_of(calls)) ==> #[trigger] conversion(
                    start,
                    slots@,
                    all,
                    0,
                    crate::write::empty_builder(),
                ) == conversion(block_reader@, slots@, all, calls.len(), builder@),
        decreases block_reader@.measure(),
    {
        let slot_idx: usize = builder.block_count();
        let ghost cur = block_reader@;
        let ghost done = replies_of(calls);
        let ghost b0 = builder@;
        proof {
            crate::read::block::lemma_after_block(cur);
            assert(starts_with(done, done));
            assert(conversion_of(reader@, done) == conversion(
                cur,
                slots@,
                done,
                slot_idx as nat,
                b0,
            ));
        }
        let era1 = match block_reader.next_block() {
            Err(e) => {
                let x = E::from(e);
                assert(conversion_result(conversion_of(reader@, done), Err(x), none));
                return Err(x);
            },
            Ok(None) => {
                if !builder.can_build() {
                    assert(conversion_result(conversion_of(reader@, done), Ok(None), none));
                    return Ok(None);
                }
                let ghost file = e2store::file_bytes(b0.entries());
                match builder.build(writer) {
                    Ok(()) => {},
                    Err(e) => {
                        return Err(E::from(Error::Io(e)));
                    },
                }
                assert(conversion_result(conversion_of(reader@, done), Ok(Some(())), file));
                return Ok(Some(()));
            },
            Ok(Some(Block::Era(_))) => {
                let x = E::from(Error::invalid_era("expected ERA1 blocks in input".to_owned()));
                assert(conversion_result(conversion_of(reader@, done), Err(x), none));
                return Err(x);
            },
            Ok(Some(Block::Era1(era1))) => era1,
        };
        let slot: u64 = reindex::slot_for(&slots, slot_idx);
        ssz_buf.clear();
        let result = f(&era1, &mut ssz_buf);
        let ghost called = calls;
        let ghost call = SynthesizerCall { block: era1, buffer: ssz_buf@, result };
        let ghost replied = done.push(call.reply());
        proof {
            assert(call.block == era1 && call.result == result);
            assert(exists|buf: &mut Vec<u8>|
                buf@.len() == 0 && final(buf)@ == call.buffer && #[trigger] call_ensures(
                    synthesizer,
                    (&call.block, buf),
                    call.result,
                ));
            calls = calls.push(call);
            assert forall|i: int| 0 <= i < calls.len() implies exists|buf: &mut Vec<u8>|
                {
                    &&& buf@.len() == 0
                    &&& final(buf)@ == (#[trigger] calls[i]).buffer
                    &&& #[trigger] call_ensures(
                        synthesizer,
                        (&calls[i].block, buf),
                        calls[i].result,
                    )
                } by {
                if i < called.len() {
                    assert(calls[i] == called[i]);
                } else {
                    assert(calls[i] == call);
                }
            }
            assert(start.blocks() =~= delivered(calls) + block_reader@.blocks()) by {
                assert(delivered(calls) =~= delivered(called).push(BlockView::Era1(era1@)));
            }
            assert forall|i: int| 0 <= i < calls.len() implies start.blocks()[i]
                == BlockView::Era1((#[trigger] calls[i]).block@) by {
                assert(start.blocks()[i] == delivered(calls)[i]);
            }
            assert(on_first_blocks(reader@, calls));
            assert(replies_of(calls) =~= replied);
            assert(starts_with(replied, done));
            assert(conversion_of(reader@, replied) == conversion(
                cur,
                slots@,
                replied,
                slot_idx as nat,
                b0,
            ));
        }
        match result {
            Ok(()) => {},
            Err(e) => {
                assert(conversion_result(conversion_of(reader@, replied), Err(e), none));
                return Err(e);
            },
        }
        let mut compressed: Vec<u8> = Vec::new();
        match compress_into(ssz_buf.as_slice(), &mut compressed) {
            Ok(()) => {},
            Err(e) => {
                return Err(E::from(e));
            },
        }
        if builder.has_slot(slot) {
            assert(conversion_result(conversion_of(reader@, replied), Ok(None), none));
            return Ok(None);
        }
        builder.add_block(slot, compressed);
        proof {
            assert forall|all: Seq<Result<Seq<u8>, E>>| starts_with(all, replied) implies #[trigger] conversion(
                start,
                slots@,
                all,
                0,
                crate::write::empty_builder(),
            ) == conversion(block_reader@, slots@, all, (slot_idx + 1) as nat, builder@) by {
                assert(starts_with(all, done));
                assert(all[slot_idx as int] == replied[slot_idx as int]);
                assert(conversion(cur, slots@, all, slot_idx as nat, b0) == conversion(
                    block_reader@,
                    slots@,
                    all,
                    (slot_idx + 1) as nat,
                    builder@,
                ));
            }
        }
    }
}

} // verus!
