//! What is shown of blocks and states.

use vstd::prelude::*;

use crate::bytes;
use crate::cli;
use crate::cli::read;
use crate::cli::read::{
    BlockSummaryView, RawWriteView, ReadErrorView, ReadFormat, ReadResultView, SlotActionView,
    StreamOptionsView,
};
use crate::format::e2store;
use crate::format::era;
use crate::format::laws as layout;
use crate::read::access;
use crate::read::block;
use crate::read::block::{BlockView, EraBlockReaderView};
use crate::read::random::EraRandomReaderView;
use crate::text;
use crate::verify::hash;

verus! {

/// The three formats have the names `hex`, `json` and `raw`, and any other name
/// is that of none.
pub proof fn format_names(name: Seq<char>)
    ensures
        read::format_named(seq!['h', 'e', 'x']) == ReadFormat::Hex,
        read::format_named(seq!['j', 's', 'o', 'n']) == ReadFormat::Json,
        read::format_named(seq!['r', 'a', 'w']) == ReadFormat::Raw,
        name != seq!['h', 'e', 'x'] && name != seq!['j', 's', 'o', 'n'] && name
            != seq!['r', 'a', 'w'] ==> read::format_named(name) == ReadFormat::Other,
{
    reveal_strlit("hex");
    reveal_strlit("json");
    reveal_strlit("raw");
    assert("hex"@ =~= seq!['h', 'e', 'x']);
    assert("json"@ =~= seq!['j', 's', 'o', 'n']);
    assert("raw"@ =~= seq!['r', 'a', 'w']);
    assert("json"@ != "hex"@) by {
        assert("json"@.len() == 4 && "hex"@.len() == 3);
    }
    assert("raw"@ != "hex"@) by {
        assert("raw"@[0] == 'r' && "hex"@[0] == 'h');
    }
    assert("raw"@ != "json"@) by {
        assert("json"@.len() == 4 && "raw"@.len() == 3);
    }
}

/// The summary of a block tells its slot, the size of a beacon block or of an
/// ERA1 header, and the first eight bytes of the digest of that.
pub proof fn summary_tells(slot: u64, b: BlockView)
    ensures
        ({
            let s = read::summary_of(slot, b);
            let data = match b {
                BlockView::Era(data) => data,
                BlockView::Era1(parts) => parts.header,
            };
            &&& s.slot == slot
            &&& b is Era ==> s.format == "ERA"@
            &&& b is Era1 ==> s.format == "ERA1"@
            &&& data.len() <= usize::MAX ==> s.size == data.len()
            &&& data.len() <= u64::MAX ==> s.size_human == cli::size_text(data.len() as u64)
            &&& hash::sha256_digest(data).len() >= 8 ==> s.hash_prefix == "0x"@ + text::hex_text(
                hash::sha256_digest(data).subrange(0, 8),
            )
        }),
{
    let data = b.primary();
    if hash::sha256_digest(data).len() >= 8 {
        assert(hash::sha256_digest(data).take(8) =~= hash::sha256_digest(data).subrange(0, 8));
    }
}

/// The size of a block is that of all its parts, of which the total difficulty
/// has 32 bytes. It is as long as what is shown of it in raw format.
pub proof fn sizes_agree(b: BlockView)
    ensures
        b.size() == read::block_bytes(b).len(),
        b.primary().len() <= b.size(),
        b.primary() == read::block_bytes(b).take(b.primary().len() as int),
{
    assert(b.primary() =~= read::block_bytes(b).take(b.primary().len() as int));
}

/// In raw format the beacon block of a slot is shown as it is when decompressed.
pub proof fn beacon_block_shown(data: Seq<u8>, p: int, slot: u64, k: int)
    requires
        e2store::all_entries_of(data) is Ok,
        data.len() <= u64::MAX,
        access::index_place(e2store::all_entries_of(data)->Ok_0, p),
        ({
            let raw = e2store::all_entries_of(data)->Ok_0;
            &&& era::slot_index_of(raw[p].data) matches Ok(idx) && access::leads_to(
                raw,
                p,
                idx,
                slot,
                k,
            )
            &&& layout::has_code(raw[k].header.typ, 0x01, 0x00)
            &&& era::snappy_decoded(raw[k].data) is Ok
        }),
    ensures
        read::slot_actions_of(data, slot, false, "raw"@) == (
            seq![
                SlotActionView::Raw(
                    era::snappy_decoded(e2store::all_entries_of(data)->Ok_0[k].data)->Ok_0,
                ),
            ],
            Ok::<(), ReadErrorView>(()),
        ),
{
    access::block_found(data, p, slot, k);
    format_names("raw"@);
    reveal_strlit("raw");
    assert("raw"@ =~= seq!['r', 'a', 'w']);
}

/// In raw format the ERA1 block of a slot is shown as its header decompressed,
/// its body, its receipts and its total difficulty, one after the other.
#[verifier::spinoff_prover]
pub proof fn execution_block_shown(data: Seq<u8>, p: int, slot: u64, k: int)
    requires
        e2store::all_entries_of(data) is Ok,
        data.len() <= u64::MAX,
        access::index_place(e2store::all_entries_of(data)->Ok_0, p),
        ({
            let raw = e2store::all_entries_of(data)->Ok_0;
            let end = access::parts_end(raw, k + 1);
            &&& era::slot_index_of(raw[p].data) matches Ok(idx) && access::leads_to(
                raw,
                p,
                idx,
                slot,
                k,
            )
            &&& layout::has_code(raw[k].header.typ, 0x03, 0x00)
            &&& era::snappy_decoded(raw[k].data) is Ok
            &&& access::last_data(raw, 0x04, None, k + 1, end) is Some
            &&& access::last_data(raw, 0x05, None, k + 1, end) is Some
            &&& access::last_data(raw, 0x06, Some(32), k + 1, end) is Some
        }),
    ensures
        ({
            let raw = e2store::all_entries_of(data)->Ok_0;
            let end = access::parts_end(raw, k + 1);
            read::slot_actions_of(data, slot, false, "raw"@) == (
                seq![
                    SlotActionView::Raw(
                        era::snappy_decoded(raw[k].data)->Ok_0 + access::last_data(
                            raw,
                            0x04,
                            None,
                            k + 1,
                            end,
                        )->Some_0 + access::last_data(raw, 0x05, None, k + 1, end)->Some_0
                            + access::last_data(raw, 0x06, Some(32), k + 1, end)->Some_0,
                    ),
                ],
                Ok::<(), ReadErrorView>(()),
            )
        }),
{
    access::block_found(data, p, slot, k);
    access::full_block_found(data, p, slot, k);
    format_names("raw"@);
    reveal_strlit("raw");
    assert("raw"@ =~= seq!['r', 'a', 'w']);
}

/// Showing a block of a slot shows that block alone if no state is asked for. A
/// state that is asked for comes after it, if there is one.
pub proof fn state_shown_after(data: Seq<u8>, slot: u64, format: Seq<char>)
    requires
        EraRandomReaderView::open(data) is Ok,
        read::slot_actions_of(data, slot, false, format).1 is Ok,
    ensures
        ({
            let alone = read::slot_actions_of(data, slot, false, format);
            let both = read::slot_actions_of(data, slot, true, format);
            let state = EraRandomReaderView::open(data)->Ok_0.state();
            &&& alone.0.len() == 1
            &&& state is Err ==> both.0 == alone.0 && both.1 is Err
            &&& state is Ok ==> both.1 is Ok && both.0[0] == alone.0[0]
            &&& state is Ok && state->Ok_0 is None ==> both.0 == alone.0.push(
                SlotActionView::Note("no beacon state found in file"@),
            )
            &&& state is Ok && state->Ok_0 is Some && format == "raw"@ ==> both.0 == alone.0.push(
                SlotActionView::Raw(state->Ok_0->Some_0),
            )
            &&& state is Ok && state->Ok_0 is Some && format == "json"@ ==> both.0 == alone.0
            &&& state is Ok && state->Ok_0 is Some && format == "hex"@ ==> both.0.len() == 2
                && both.0[1] is Note
        }),
{
    format_names(format);
    reveal_strlit("hex");
    reveal_strlit("json");
    reveal_strlit("raw");
    assert("hex"@ =~= seq!['h', 'e', 'x']);
    assert("json"@ =~= seq!['j', 's', 'o', 'n']);
    assert("raw"@ =~= seq!['r', 'a', 'w']);
}

/// Showing a block of a slot fails if the slot was skipped, and if the format is
/// none of the three.
pub proof fn block_not_shown(data: Seq<u8>, slot: u64, read_state: bool, format: Seq<char>)
    requires
        EraRandomReaderView::open(data) is Ok,
    ensures
        ({
            let v = EraRandomReaderView::open(data)->Ok_0;
            let shown = read::slot_actions_of(data, slot, read_state, format);
            &&& v.block_at(slot) is Err ==> shown.0.len() == 0 && shown.1 is Err
            &&& v.block_at(slot) matches Ok(None) ==> shown.0.len() == 0 && shown.1 == Err::<
                (),
                ReadErrorView,
            >(ReadErrorView::EmptySlot(slot))
            &&& format != "hex"@ && format != "json"@ && format != "raw"@ ==> shown.0.len() == 0
                && shown.1 is Err
        }),
{
    format_names(format);
    reveal_strlit("hex");
    reveal_strlit("json");
    reveal_strlit("raw");
    assert("hex"@ =~= seq!['h', 'e', 'x']);
    assert("json"@ =~= seq!['j', 's', 'o', 'n']);
    assert("raw"@ =~= seq!['r', 'a', 'w']);
}

/// The bytes of a block.
pub open spec fn main_bytes(b: BlockView) -> Seq<u8> {
    match b {
        BlockView::Era(data) => data,
        BlockView::Era1(parts) => parts.header,
    }
}

/// Streaming in raw format writes the bytes of each block, in order and up to
/// the limit: in a directory to a file of its own, named by its slot, which
/// counts up from the first slot of the index; else to the output file, or to
/// the standard output.
pub proof fn raw_stream_writes(data: Seq<u8>, opts: StreamOptionsView, k: int)
    requires
        EraRandomReaderView::open(data) is Ok,
        EraBlockReaderView::start(data).failure() is None,
        opts.format == "raw"@,
        !opts.state,
    ensures
        ({
            let blocks = EraBlockReaderView::start(data).blocks();
            let (writes, result) = read::stream_of(data, opts);
            let start = match EraRandomReaderView::open(data)->Ok_0.index {
                Some(index) => index.1.starting_slot as int,
                None => 0,
            };
            &&& result matches Ok(r) && r.blocks.len() == 0 && r.state is None
            &&& opts.limit is None ==> writes.len() == blocks.len()
            &&& opts.limit matches Some(limit) ==> writes.len() <= limit && writes.len()
                <= blocks.len() && (writes.len() == limit || writes.len() == blocks.len())
            &&& 0 <= k < writes.len() && start + k <= u64::MAX ==> match opts.output_dir {
                Some(dir) => writes[k] == (RawWriteView::File {
                    path: dir + "/"@ + text::dec((start + k) as nat) + ".raw"@,
                    data: main_bytes(blocks[k]),
                }),
                None => match opts.output {
                    Some(path) => writes[k] == (RawWriteView::Append {
                        path,
                        data: main_bytes(blocks[k]),
                    }),
                    None => writes[k] == (RawWriteView::Stdout { data: main_bytes(blocks[k]) }),
                },
            }
        }),
{
    format_names("raw"@);
    reveal_strlit("raw");
    assert("raw"@ =~= seq!['r', 'a', 'w']);
    read::stream_puts_out(data, opts);
    let (writes, result) = read::stream_of(data, opts);
    assert(writes =~= read::all_writes(
        opts,
        EraBlockReaderView::start(data).blocks(),
        read::first_slot(EraRandomReaderView::open(data)->Ok_0),
        read::blocks_put_out(opts, EraBlockReaderView::start(data).blocks()),
    ));
}

/// Streaming in the other formats summarises each block, in order and up to the
/// limit, under its slot, and writes nothing unless there is a directory.
pub proof fn stream_summarises(data: Seq<u8>, opts: StreamOptionsView, k: int)
    requires
        EraRandomReaderView::open(data) is Ok,
        EraBlockReaderView::start(data).failure() is None,
        opts.format == "hex"@ || opts.format == "json"@,
        !opts.state,
    ensures
        ({
            let blocks = EraBlockReaderView::start(data).blocks();
            let (writes, result) = read::stream_of(data, opts);
            let start = match EraRandomReaderView::open(data)->Ok_0.index {
                Some(index) => index.1.starting_slot as int,
                None => 0,
            };
            let told = result->Ok_0.blocks;
            &&& result is Ok && result->Ok_0.state is None
            &&& opts.output_dir is None ==> writes.len() == 0
            &&& opts.output_dir is Some ==> writes.len() == told.len()
            &&& opts.limit is None ==> told.len() == blocks.len()
            &&& opts.limit matches Some(limit) ==> told.len() <= limit && told.len()
                <= blocks.len() && (told.len() == limit || told.len() == blocks.len())
            &&& 0 <= k < told.len() && start + k <= u64::MAX ==> told[k] == read::summary_of(
                (start + k) as u64,
                blocks[k],
            )
            &&& opts.output_dir is Some && 0 <= k < told.len() && start + k <= u64::MAX
                ==> writes[k] == (RawWriteView::File {
                path: opts.output_dir->Some_0 + "/"@ + text::dec((start + k) as nat) + ".raw"@,
                data: main_bytes(blocks[k]),
            })
        }),
{
    format_names(opts.format);
    reveal_strlit("hex");
    reveal_strlit("json");
    reveal_strlit("raw");
    assert("hex"@ =~= seq!['h', 'e', 'x']);
    assert("json"@ =~= seq!['j', 's', 'o', 'n']);
    read::stream_puts_out(data, opts);
    let (writes, result) = read::stream_of(data, opts);
    let all = read::all_writes(
        opts,
        EraBlockReaderView::start(data).blocks(),
        read::first_slot(EraRandomReaderView::open(data)->Ok_0),
        read::blocks_put_out(opts, EraBlockReaderView::start(data).blocks()),
    );
    assert(writes =~= all);
}

/// A state that is asked for is summarised after the blocks, if there is one. In
/// raw format its bytes are written if there is a directory.
#[verifier::spinoff_prover]
pub proof fn stream_state(data: Seq<u8>, opts: StreamOptionsView)
    requires
        EraRandomReaderView::open(data) is Ok,
        EraBlockReaderView::start(data).failure() is None,
        opts.format == "raw"@ || opts.format == "hex"@ || opts.format == "json"@,
        opts.state,
    ensures
        ({
            let state = EraRandomReaderView::open(data)->Ok_0.state();
            let without = read::stream_of(data, StreamOptionsView { state: false, ..opts });
            let (writes, result) = read::stream_of(data, opts);
            &&& state is Err ==> result is Err && writes == without.0
            &&& state is Ok ==> result is Ok && result->Ok_0.blocks == without.1->Ok_0.blocks
            &&& state is Ok && state->Ok_0 is None ==> result->Ok_0.state is None && writes
                == without.0
            &&& state is Ok && state->Ok_0 is Some ==> (result->Ok_0.state matches Some(s) && (
            state->Ok_0->Some_0.len() <= usize::MAX ==> s.size == state->Ok_0->Some_0.len())
                && s.hash_prefix == "0x"@ + text::hex_text(
                hash::sha256_digest(state->Ok_0->Some_0).take(8),
            ))
            &&& state is Ok && state->Ok_0 is Some ==> writes == if opts.format == "raw"@
                && opts.output_dir is Some {
                without.0.push(
                    RawWriteView::File {
                        path: opts.output_dir->Some_0 + "/state.raw"@,
                        data: state->Ok_0->Some_0,
                    },
                )
            } else {
                without.0
            }
        }),
{
    format_names(opts.format);
    reveal_strlit("hex");
    reveal_strlit("json");
    reveal_strlit("raw");
    assert("hex"@ =~= seq!['h', 'e', 'x']);
    assert("json"@ =~= seq!['j', 's', 'o', 'n']);
    assert("raw"@ =~= seq!['r', 'a', 'w']);
    assert("raw"@ != "hex"@) by {
        assert("raw"@[0] == 'r' && "hex"@[0] == 'h');
    }
    assert("raw"@ != "json"@) by {
        assert("json"@.len() == 4 && "raw"@.len() == 3);
    }
    let quiet = StreamOptionsView { state: false, ..opts };
    read::stream_puts_out(data, opts);
    read::stream_puts_out(data, quiet);
    let blocks = EraBlockReaderView::start(data).blocks();
    let first = read::first_slot(EraRandomReaderView::open(data)->Ok_0);
    let n = read::blocks_put_out(opts, blocks);
    assert(read::blocks_put_out(quiet, blocks) == n);
    assert(read::all_writes(opts, blocks, first, n) =~= read::all_writes(quiet, blocks, first, n));
    assert(read::all_summaries(opts, blocks, first, n) =~= read::all_summaries(
        quiet,
        blocks,
        first,
        n,
    ));
    let none = Seq::<RawWriteView>::empty();
    let all = read::all_writes(opts, blocks, first, n);
    assert(all + none =~= all);
    assert(read::stream_of(data, quiet).0 =~= all);
}

/// Streaming that breaks off after `n` blocks.
#[verifier::spinoff_prover]
proof fn lemma_broken(
    v: EraBlockReaderView,
    opts: StreamOptionsView,
    slot: u64,
    count: nat,
    writes: Seq<RawWriteView>,
    blocks: Seq<BlockSummaryView>,
)
    requires
        v.failure() is Some,
        read::format_named(opts.format) != ReadFormat::Other,
        opts.limit matches Some(limit) ==> count + v.blocks().len() <= limit,
    ensures
        ({
            let s = read::streamed(v, opts, slot, count, writes, blocks);
            &&& s.end == Err::<(), ReadErrorView>(ReadErrorView::Read(v.failure()->Some_0))
            &&& s.writes == writes + read::all_writes(opts, v.blocks(), slot, v.blocks().len())
        }),
    decreases v.measure(),
{
    let all = v.blocks();
    block::lemma_after_block(v);
    match v.next() {
        Ok(Some(b)) => {
            let next = slot.wrapping_add(1);
            let rest = v.after().blocks();
            assert(all == seq![b] + rest);
            let one_write = read::block_writes(opts, slot, b.primary());
            let one_summary = read::block_summaries(opts, slot, b);
            lemma_broken(
                v.after(),
                opts,
                next,
                count + 1,
                writes + one_write,
                blocks + one_summary,
            );
            let m = rest.len();
            assert(bytes::wrap64(slot + 0) == slot);
            assert forall|k: int| 0 <= k < m implies bytes::wrap64(next + k) == bytes::wrap64(
                slot + (k + 1),
            ) && #[trigger] rest[k] == all[k + 1] by {}
            assert((writes + one_write) + read::all_writes(opts, rest, next, m) =~= writes
                + read::all_writes(opts, all, slot, all.len()));
        },
        _ => {
            assert(all.len() == 0);
            assert(writes + read::all_writes(opts, all, slot, 0) =~= writes);
        },
    }
}

/// Streaming a file that cannot be read to its end fails in the way that reading
/// it does, unless the limit comes first. In raw format the blocks before have
/// been written then, each under its slot if there is a directory.
pub proof fn stream_breaks_off(data: Seq<u8>, opts: StreamOptionsView, k: int)
    requires
        EraRandomReaderView::open(data) is Ok,
        EraBlockReaderView::start(data).failure() is Some,
        opts.format == "raw"@,
        opts.limit matches Some(limit) ==> EraBlockReaderView::start(data).blocks().len() <= limit,
    ensures
        ({
            let blocks = EraBlockReaderView::start(data).blocks();
            let (writes, result) = read::stream_of(data, opts);
            let start = match EraRandomReaderView::open(data)->Ok_0.index {
                Some(index) => index.1.starting_slot as int,
                None => 0,
            };
            &&& result == Err::<ReadResultView, ReadErrorView>(
                ReadErrorView::Read(EraBlockReaderView::start(data).failure()->Some_0),
            )
            &&& writes.len() == blocks.len()
            &&& 0 <= k < writes.len() && start + k <= u64::MAX ==> match opts.output_dir {
                Some(dir) => writes[k] == (RawWriteView::File {
                    path: dir + "/"@ + text::dec((start + k) as nat) + ".raw"@,
                    data: main_bytes(blocks[k]),
                }),
                None => match opts.output {
                    Some(path) => writes[k] == (RawWriteView::Append {
                        path,
                        data: main_bytes(blocks[k]),
                    }),
                    None => writes[k] == (RawWriteView::Stdout { data: main_bytes(blocks[k]) }),
                },
            }
        }),
{
    format_names("raw"@);
    reveal_strlit("raw");
    assert("raw"@ =~= seq!['r', 'a', 'w']);
    let v = EraBlockReaderView::start(data);
    let first = read::first_slot(EraRandomReaderView::open(data)->Ok_0);
    lemma_broken(v, opts, first, 0, Seq::empty(), Seq::empty());
    let all = read::all_writes(opts, v.blocks(), first, v.blocks().len());
    assert(Seq::<RawWriteView>::empty() + all =~= all);
}

/// Streaming in a format that there is not fails at the first block, and writes
/// nothing.
pub proof fn unknown_format_refused(data: Seq<u8>, opts: StreamOptionsView)
    requires
        EraRandomReaderView::open(data) is Ok,
        EraBlockReaderView::start(data).blocks().len() > 0,
        opts.format != "raw"@ && opts.format != "hex"@ && opts.format != "json"@,
        opts.limit != Some(0usize),
    ensures
        read::stream_of(data, opts) == (
            Seq::<RawWriteView>::empty(),
            Err::<ReadResultView, ReadErrorView>(ReadErrorView::UnknownFormat(opts.format)),
        ),
{
    format_names(opts.format);
    reveal_strlit("hex");
    reveal_strlit("json");
    reveal_strlit("raw");
    assert("hex"@ =~= seq!['h', 'e', 'x']);
    assert("json"@ =~= seq!['j', 's', 'o', 'n']);
    assert("raw"@ =~= seq!['r', 'a', 'w']);
    let v = EraBlockReaderView::start(data);
    block::lemma_after_block(v);
    assert(v.next() matches Ok(Some(_)));
}

} // verus!
