//! How reading typed entries and blocks fails.

use vstd::prelude::*;

use crate::error::{E2StoreErrorView, ErrorView, IoErrorKind, IoErrorView};
use crate::format::e2store;
use crate::format::e2store::EntryView;
use crate::format::era;
use crate::format::laws as layout;
use crate::read::block::EraBlockReaderView;
use crate::read::laws;
use crate::read::typed::EraReaderView;
use crate::text;

verus! {

/// Whether `e` says what is wrong with an entry that cannot be decoded.
pub open spec fn tells_flaw(entry: EntryView, e: ErrorView) -> bool {
    let typ = entry.header.typ;
    if typ[1] == 0x00 && 0x01 <= typ[0] <= 0x03 {
        e == ErrorView::Io(
            IoErrorView {
                kind: IoErrorKind::InvalidData,
                message: era::snappy_decoded(entry.data)->Err_0,
            },
        )
    } else if typ[1] == 0x00 && 0x06 <= typ[0] <= 0x07 {
        e == ErrorView::E2Store(
            E2StoreErrorView::InvalidEra1(
                "total difficulty must be 32 bytes, got "@ + text::dec(entry.data.len()),
            ),
        )
    } else {
        e == ErrorView::E2Store(
            E2StoreErrorView::InvalidEra(
                "bad block index: "@ + era::slot_index_of(entry.data)->Err_0,
            ),
        )
    }
}

proof fn lemma_fails_at(v: EraReaderView, entries: Seq<EntryView>, i: int, k: int)
    requires
        laws::stands_at(v, entries, i),
        i <= k < entries.len(),
        forall|j: int| i <= j < k ==> laws::decodable(#[trigger] entries[j]),
        !laws::decodable(entries[k]),
    ensures
        v.entries().len() == k - i,
        v.failure() == Some(laws::decoded_at(entries, k)->Err_0),
        laws::decoded_at(entries, k) is Err,
    decreases k - i,
{
    laws::lemma_stands_at(v, entries, i);
    laws::decoding_succeeds(entries, i);
    if i < k {
        assert(laws::decodable(entries[i]));
        lemma_fails_at(v.after(), entries, i + 1, k);
        assert(v.entries() == seq![laws::decoded_at(entries, i)->Ok_0] + v.after().entries());
    }
}

/// Reading typed entries stops at the first that cannot be decoded, and the
/// error says what is wrong with it. Those before it have been delivered.
/// Reading blocks stops with the same error.
pub proof fn reading_fails_at(data: Seq<u8>, k: int)
    requires
        e2store::all_entries_of(data) is Ok,
        1 <= k < e2store::all_entries_of(data)->Ok_0.len(),
        forall|j: int|
            1 <= j < k ==> laws::decodable(#[trigger] e2store::all_entries_of(data)->Ok_0[j]),
        !laws::decodable(e2store::all_entries_of(data)->Ok_0[k]),
    ensures
        ({
            let raw = e2store::all_entries_of(data)->Ok_0;
            let failure = EraReaderView::start(data).failure();
            &&& failure is Some
            &&& tells_flaw(raw[k], failure->Some_0)
            &&& EraReaderView::start(data).entries().len() == k - 1
            &&& EraBlockReaderView::start(data).failure() == failure
        }),
{
    let raw = e2store::all_entries_of(data)->Ok_0;
    let start = EraReaderView::start(data);
    let first = start.past_version();
    laws::lemma_at_first(data);
    lemma_fails_at(first, raw, 1, k);
    assert(start.entries() == first.entries());
    assert(start.failure() == first.failure());
    layout::type_codes(raw[k].header.typ);
    laws::block_failure_agrees(EraBlockReaderView::start(data));
}

/// Reading a file that does not start with a version entry fails for that
/// reason.
pub proof fn version_missing(data: Seq<u8>)
    ensures
        data.len() < 8 || (data[6] == 0 && data[7] == 0 && 8 + layout::declared(data) <= data.len()
            && !(data[0] == 0x65 && data[1] == 0x32)) ==> EraReaderView::start(data).failure()
            == Some(ErrorView::E2Store(E2StoreErrorView::MissingVersion)) && EraReaderView::start(
            data,
        ).entries().len() == 0,
{
    layout::entry_reading(data);
    layout::type_codes(e2store::next_entry_of(data)->Ok_0->Some_0.header.typ);
}

/// Reading a file that cannot be read to its end fails, if not before then with
/// the error at which the entries end.
pub proof fn cut_file_fails(v: EraReaderView)
    requires
        v.version_consumed,
        e2store::stream_failure(v.rest) is Some,
    ensures
        v.failure() is Some,
        v.entries().len() <= e2store::stream_entries(v.rest).len(),
        v.entries().len() == e2store::stream_entries(v.rest).len() ==> v.failure() == Some(
            ErrorView::Io(e2store::stream_failure(v.rest)->Some_0),
        ),
    decreases v.rest.len(),
{
    match e2store::next_entry_of(v.rest) {
        Ok(Some(e)) => {
            let more = e2store::stream_entries(e2store::after_entry(v.rest));
            e2store::lemma_entry_encoded(v.rest);
            layout::entry_reading(v.rest);
            assert(e2store::stream_entries(v.rest) =~= seq![e] + more);
            if v.next() is Ok {
                cut_file_fails(v.after());
                assert(v.entries() =~= seq![v.next()->Ok_0->Some_0] + v.after().entries());
            }
        },
        _ => {},
    }
}

/// Once the block reader has delivered a block it knows the format that the
/// reader of typed entries knows.
pub proof fn block_reader_format(v: EraBlockReaderView)
    requires
        v.format == v.inner.format,
    ensures
        v.next() matches Ok(Some(_)) ==> v.after().format == v.after().inner.format,
    decreases v.inner.rest.len(),
{
    match v.inner.next() {
        Ok(Some(entry)) => {
            if v.pending.completed_by(entry) is None {
                block_reader_format(v.step(entry));
            }
        },
        _ => {},
    }
}

} // verus!
