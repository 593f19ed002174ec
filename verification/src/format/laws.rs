//! How the formats stand byte by byte.

use vstd::prelude::*;

use crate::bytes;
use crate::error::{E2StoreErrorView, IoErrorKind, IoErrorView};
use crate::format::e2store;
use crate::format::e2store::{EntryView, Header};
use crate::format::era;
use crate::format::era::SlotIndexView;
use crate::format::era1;
use crate::format::era1::HeaderRecord;
use crate::format::types;
use crate::text;

verus! {

/// Whether an entry type has these two bytes.
pub open spec fn has_code(typ: [u8; 2], first: u8, second: u8) -> bool {
    typ[0] == first && typ[1] == second
}

/// The two bytes of each entry type.
pub proof fn type_codes(typ: [u8; 2])
    ensures
        typ == types::TYPE_VERSION <==> has_code(typ, 0x65, 0x32),
        typ == types::TYPE_EMPTY <==> has_code(typ, 0x00, 0x00),
        typ == types::TYPE_BLOCK_INDEX <==> has_code(typ, 0x66, 0x32),
        typ == types::TYPE_DYNAMIC_BLOCK_INDEX <==> has_code(typ, 0x67, 0x32),
        typ == types::TYPE_SLOT_INDEX <==> has_code(typ, 0x69, 0x32),
        typ == types::TYPE_STATE_INDEX <==> has_code(typ, 0x33, 0x00),
        typ == types::TYPE_COMPRESSED_SIGNED_BEACON_BLOCK <==> has_code(typ, 0x01, 0x00),
        typ == types::TYPE_COMPRESSED_BEACON_STATE <==> has_code(typ, 0x02, 0x00),
        typ == types::TYPE_COMPRESSED_HEADER <==> has_code(typ, 0x03, 0x00),
        typ == types::TYPE_COMPRESSED_HEADER_WITH_PROOF <==> has_code(typ, 0x03, 0x01),
        typ == types::TYPE_COMPRESSED_BODY <==> has_code(typ, 0x04, 0x00),
        typ == types::TYPE_COMPRESSED_RECEIPTS <==> has_code(typ, 0x05, 0x00),
        typ == types::TYPE_TOTAL_DIFFICULTY <==> has_code(typ, 0x06, 0x00),
        typ == types::TYPE_ACCUMULATOR <==> has_code(typ, 0x07, 0x00),
        typ == types::TYPE_COMPRESSED_ACCOUNT <==> has_code(typ, 0x08, 0x00),
        typ == types::TYPE_COMPRESSED_STORAGE <==> has_code(typ, 0x09, 0x00),
        typ == types::TYPE_COMPRESSED_SLIM_RECEIPTS <==> has_code(typ, 0x0a, 0x00),
        typ == types::TYPE_PROOF <==> has_code(typ, 0x0b, 0x00),
{
    lemma_code(typ, types::TYPE_VERSION);
    lemma_code(typ, types::TYPE_EMPTY);
    lemma_code(typ, types::TYPE_BLOCK_INDEX);
    lemma_code(typ, types::TYPE_DYNAMIC_BLOCK_INDEX);
    lemma_code(typ, types::TYPE_SLOT_INDEX);
    lemma_code(typ, types::TYPE_STATE_INDEX);
    lemma_code(typ, types::TYPE_COMPRESSED_SIGNED_BEACON_BLOCK);
    lemma_code(typ, types::TYPE_COMPRESSED_BEACON_STATE);
    lemma_code(typ, types::TYPE_COMPRESSED_HEADER);
    lemma_code(typ, types::TYPE_COMPRESSED_HEADER_WITH_PROOF);
    lemma_code(typ, types::TYPE_COMPRESSED_BODY);
    lemma_code(typ, types::TYPE_COMPRESSED_RECEIPTS);
    lemma_code(typ, types::TYPE_TOTAL_DIFFICULTY);
    lemma_code(typ, types::TYPE_ACCUMULATOR);
    lemma_code(typ, types::TYPE_COMPRESSED_ACCOUNT);
    lemma_code(typ, types::TYPE_COMPRESSED_STORAGE);
    lemma_code(typ, types::TYPE_COMPRESSED_SLIM_RECEIPTS);
    lemma_code(typ, types::TYPE_PROOF);
}

proof fn lemma_code(a: [u8; 2], b: [u8; 2])
    ensures
        a == b <==> has_code(a, b[0], b[1]),
{
    if has_code(a, b[0], b[1]) {
        assert(a =~= b);
    }
}

/// The official name of each entry type, by its two bytes.
pub proof fn official_names(typ: [u8; 2])
    ensures
        has_code(typ, 0x65, 0x32) ==> types::entry_type_text(typ) == "Version"@,
        has_code(typ, 0x00, 0x00) ==> types::entry_type_text(typ) == "Empty"@,
        has_code(typ, 0x01, 0x00) ==> types::entry_type_text(typ)
            == "CompressedSignedBeaconBlock"@,
        has_code(typ, 0x02, 0x00) ==> types::entry_type_text(typ) == "CompressedBeaconState"@,
        has_code(typ, 0x03, 0x00) ==> types::entry_type_text(typ) == "CompressedHeader"@,
        has_code(typ, 0x03, 0x01) ==> types::entry_type_text(typ) == "CompressedHeaderWithProof"@,
        has_code(typ, 0x04, 0x00) ==> types::entry_type_text(typ) == "CompressedBody"@,
        has_code(typ, 0x05, 0x00) ==> types::entry_type_text(typ) == "CompressedReceipts"@,
        has_code(typ, 0x06, 0x00) ==> types::entry_type_text(typ) == "TotalDifficulty"@,
        has_code(typ, 0x07, 0x00) ==> types::entry_type_text(typ) == "Accumulator"@,
        has_code(typ, 0x08, 0x00) ==> types::entry_type_text(typ) == "CompressedAccount"@,
        has_code(typ, 0x09, 0x00) ==> types::entry_type_text(typ) == "CompressedStorage"@,
        has_code(typ, 0x0a, 0x00) ==> types::entry_type_text(typ) == "CompressedSlimReceipts"@,
        has_code(typ, 0x0b, 0x00) ==> types::entry_type_text(typ) == "Proof"@,
        has_code(typ, 0x66, 0x32) ==> types::entry_type_text(typ) == "BlockIndex"@,
        has_code(typ, 0x67, 0x32) ==> types::entry_type_text(typ) == "DynamicBlockIndex"@,
        has_code(typ, 0x69, 0x32) ==> types::entry_type_text(typ) == "SlotIndex"@,
        typ[1] != 0x00 && typ[1] != 0x01 && typ[1] != 0x32 ==> types::entry_type_text(typ)
            == "Unknown"@,
        typ[1] == 0x00 && typ[0] > 0x0b ==> types::entry_type_text(typ) == "Unknown"@,
        typ[1] == 0x01 && typ[0] != 0x03 ==> types::entry_type_text(typ) == "Unknown"@,
        typ[1] == 0x32 && !(0x65 <= typ[0] <= 0x67) && typ[0] != 0x69 ==> types::entry_type_text(
            typ,
        ) == "Unknown"@,
{
    type_codes(typ);
}

/// The number that four bytes stand for.
pub open spec fn number4(a: u8, b: u8, c: u8, d: u8) -> int {
    a + 0x100 * b + 0x1_0000 * c + 0x100_0000 * d
}

/// The number that the eight bytes of `s` from `at` on stand for.
pub open spec fn number8(s: Seq<u8>, at: int) -> int {
    number4(s[at], s[at + 1], s[at + 2], s[at + 3]) + 0x1_0000_0000 * number4(
        s[at + 4],
        s[at + 5],
        s[at + 6],
        s[at + 7],
    )
}

/// The bytes of a header: two of the type, four of the length and two of the
/// reserved field, least significant first.
pub proof fn header_layout(h: Header)
    ensures
        e2store::header_bytes(h).len() == 8,
        ({
            let s = e2store::header_bytes(h);
            &&& s[0] == h.typ[0]
            &&& s[1] == h.typ[1]
            &&& number4(s[2], s[3], s[4], s[5]) == h.length
            &&& s[6] + 0x100 * s[7] == h.reserved
        }),
{
    let s = e2store::header_bytes(h);
    e2store::lemma_header_len(h);
    reveal_with_fuel(bytes::le_bytes, 5);
    let l = h.length as nat;
    assert(s[2] == (l % 256) as u8);
    assert(s[3] == (l / 256 % 256) as u8);
    assert(s[4] == (l / 256 / 256 % 256) as u8);
    assert(s[5] == (l / 256 / 256 / 256 % 256) as u8);
    assert(s[6] == (h.reserved as nat % 256) as u8);
    assert(s[7] == (h.reserved as nat / 256 % 256) as u8);
}

/// What a header is read as: it takes eight bytes, and the last two must be 0.
pub proof fn header_reading(s: Seq<u8>)
    ensures
        match e2store::header_of(s) {
            Ok(h) => s.len() >= 8 && s[6] == 0 && s[7] == 0 && h.typ[0] == s[0] && h.typ[1] == s[1]
                && h.length == number4(s[2], s[3], s[4], s[5]) && h.reserved == 0,
            Err(E2StoreErrorView::TruncatedHeader(n)) => s.len() < 8 && n == s.len() as usize,
            Err(E2StoreErrorView::NonZeroReserved(n)) => s.len() >= 8 && n != 0 && n == s[6]
                + 0x100 * s[7],
            Err(_) => false,
        },
{
    if s.len() >= 8 {
        let a = s.subrange(2, 6);
        let b = s.subrange(6, 8);
        reveal_with_fuel(bytes::le_value, 5);
        assert(bytes::le_value(b) == b[0] + 0x100 * b[1]);
        assert(bytes::le_value(a) == number4(a[0], a[1], a[2], a[3]));
    }
}

/// The length that a header at the start of `s` declares.
pub open spec fn declared(s: Seq<u8>) -> int {
    number4(s[2], s[3], s[4], s[5])
}

/// What is read as the next entry: nothing of less than eight bytes; else the
/// type and as many bytes as are declared, if the reserved bytes are 0 and the
/// data is there.
pub proof fn entry_reading(s: Seq<u8>)
    ensures
        s.len() < 8 ==> e2store::next_entry_of(s) == Ok::<Option<EntryView>, IoErrorView>(None),
        s.len() >= 8 ==> match e2store::next_entry_of(s) {
            Ok(None) => false,
            Ok(Some(e)) => s[6] == 0 && s[7] == 0 && 8 + declared(s) <= s.len() && e.header.typ[0]
                == s[0] && e.header.typ[1] == s[1] && e.header.length == declared(s)
                && e.header.reserved == 0 && e.data == s.subrange(8, 8 + declared(s))
                && e2store::after_entry(s) == s.skip(8 + declared(s)),
            Err(e) => if s[6] != 0 || s[7] != 0 {
                e.kind == IoErrorKind::InvalidData && e.message == "non-zero reserved field: "@
                    + text::dec((s[6] + 0x100 * s[7]) as nat)
            } else {
                e.kind == IoErrorKind::UnexpectedEof && e.message == "failed to fill whole buffer"@
                    && 8 + declared(s) > s.len()
            },
        },
{
    if s.len() >= 8 {
        header_reading(s.take(8));
    }
}

/// What is read as the next header, whose data is passed over, or as much of it
/// as there is.
pub proof fn header_scanning(s: Seq<u8>)
    ensures
        s.len() < 8 ==> e2store::next_header_of(s) == Ok::<Option<Header>, IoErrorView>(None),
        s.len() >= 8 ==> match e2store::next_header_of(s) {
            Ok(None) => false,
            Ok(Some(h)) => s[6] == 0 && s[7] == 0 && h.typ[0] == s[0] && h.typ[1] == s[1]
                && h.length == declared(s) && h.reserved == 0 && e2store::after_header(s) == if 8
                + declared(s) <= s.len() {
                s.skip(8 + declared(s))
            } else {
                Seq::empty()
            },
            Err(e) => (s[6] != 0 || s[7] != 0) && e.kind == IoErrorKind::InvalidData,
        },
{
    if s.len() >= 8 {
        header_reading(s.take(8));
    }
}

/// Where an entry starts in a file: after the headers and the data of those
/// before it.
pub open spec fn place_of(entries: Seq<EntryView>, i: int) -> nat
    decreases i,
{
    if i <= 0 {
        0
    } else {
        place_of(entries, i - 1) + 8 + entries[i - 1].data.len()
    }
}

/// A file holds its entries one after the other: the header of each where it
/// starts, and then its data.
pub proof fn file_layout(entries: Seq<EntryView>, i: int)
    requires
        0 <= i < entries.len(),
    ensures
        ({
            let s = e2store::file_bytes(entries);
            let at = place_of(entries, i) as int;
            let e = entries[i];
            &&& at + 8 + e.data.len() <= s.len()
            &&& s[at] == e.header.typ[0]
            &&& s[at + 1] == e.header.typ[1]
            &&& number4(s[at + 2], s[at + 3], s[at + 4], s[at + 5]) == e.header.length
            &&& s.subrange(at + 8, at + 8 + e.data.len()) == e.data
            &&& e2store::entry_pos(entries, i) == at
        }),
        e2store::file_bytes(entries).len() == place_of(entries, entries.len() as int),
{
    lemma_place(entries, i);
    lemma_place(entries, entries.len() as int);
    assert(entries.take(entries.len() as int) =~= entries);
    let s = e2store::file_bytes(entries);
    let at = place_of(entries, i) as int;
    let e = entries[i];
    let front = entries.take(i + 1);
    assert(front.drop_last() =~= entries.take(i));
    assert(entries =~= front + entries.skip(i + 1));
    e2store::lemma_file_concat(front, entries.skip(i + 1));
    header_layout(e.header);
    let head = e2store::header_bytes(e.header);
    let before = e2store::file_bytes(entries.take(i));
    let rest = e2store::file_bytes(entries.skip(i + 1));
    assert(s =~= before + head + e.data + rest);
    assert(s[at] == head[0]);
    assert(s[at + 1] == head[1]);
    assert(s[at + 2] == head[2]);
    assert(s[at + 3] == head[3]);
    assert(s[at + 4] == head[4]);
    assert(s[at + 5] == head[5]);
    assert(s.subrange(at + 8, at + 8 + e.data.len()) =~= e.data);
}

proof fn lemma_place(entries: Seq<EntryView>, i: int)
    requires
        0 <= i <= entries.len(),
    ensures
        e2store::file_bytes(entries.take(i)).len() == place_of(entries, i),
    decreases i,
{
    if i > 0 {
        lemma_place(entries, i - 1);
        assert(entries.take(i).drop_last() =~= entries.take(i - 1));
        e2store::lemma_header_len(entries[i - 1].header);
    } else {
        assert(entries.take(i) =~= Seq::empty());
    }
}

/// Reading stops where what is left is no entry: at the end, if less than eight
/// bytes are left, and else at a header that cannot be or at data that is not
/// there.
pub proof fn reading_stops(s: Seq<u8>)
    ensures
        ({
            let rest = s.skip(e2store::file_bytes(e2store::stream_entries(s)).len() as int);
            match e2store::stream_failure(s) {
                None => rest.len() < 8,
                Some(e) => rest.len() >= 8 && if rest[6] != 0 || rest[7] != 0 {
                    e.kind == IoErrorKind::InvalidData
                } else {
                    e.kind == IoErrorKind::UnexpectedEof && 8 + declared(rest) > rest.len()
                },
            }
        }),
    decreases s.len(),
{
    entry_reading(s);
    let entries = e2store::stream_entries(s);
    match e2store::next_entry_of(s) {
        Ok(Some(e)) => {
            let t = e2store::after_entry(s);
            let more = e2store::stream_entries(t);
            reading_stops(t);
            e2store::lemma_file_first(entries);
            assert(entries.skip(1) =~= more);
            e2store::lemma_header_len(e.header);
            e2store::entries_cover_source(t);
            let n = e2store::file_bytes(more).len() as int;
            assert(t.skip(n) =~= s.skip(8 + e.data.len() + n));
        },
        _ => {
            assert(s.skip(0) =~= s);
        },
    }
}

/// Scanning finds the headers of the entries that can be read, and then that of
/// an entry whose data is short. It fails only at a header that cannot be.
pub proof fn scanning_agrees(s: Seq<u8>)
    ensures
        ({
            let found = e2store::stream_headers(s);
            let read = e2store::stream_entries(s);
            let short = e2store::stream_failure(s) matches Some(e) && e.kind
                == IoErrorKind::UnexpectedEof;
            &&& found.len() == read.len() + if short {
                1int
            } else {
                0
            }
            &&& forall|i: int| 0 <= i < read.len() ==> found[i] == (#[trigger] read[i]).header
            &&& e2store::header_failure(s) is Some <==> (e2store::stream_failure(s) matches Some(e)
                && e.kind == IoErrorKind::InvalidData)
        }),
    decreases s.len(),
{
    entry_reading(s);
    header_scanning(s);
    match e2store::next_entry_of(s) {
        Ok(Some(e)) => {
            scanning_agrees(e2store::after_entry(s));
            let h = e2store::next_header_of(s)->Ok_0->Some_0;
            assert(h.typ =~= e.header.typ);
            assert(e2store::after_header(s) == e2store::after_entry(s));
            let read = e2store::stream_entries(s);
            let found = e2store::stream_headers(s);
            assert forall|i: int| 0 <= i < read.len() implies found[i] == (
            #[trigger] read[i]).header by {
                if i > 0 {
                    assert(read[i] == e2store::stream_entries(e2store::after_entry(s))[i - 1]);
                }
            }
        },
        Err(e) => {
            if e.kind == IoErrorKind::UnexpectedEof {
                let none = Seq::<u8>::empty();
                assert(e2store::after_header(s) == none);
                assert(e2store::stream_headers(none) =~= Seq::empty());
                assert(e2store::header_failure(none) is None);
                assert(e2store::next_header_of(s) matches Ok(Some(_)));
                let h = e2store::next_header_of(s)->Ok_0->Some_0;
                assert(e2store::stream_headers(s) == seq![h] + e2store::stream_headers(none));
                assert(e2store::header_failure(s) == e2store::header_failure(none));
            } else {
                assert(e2store::next_header_of(s) is Err);
            }
        },
        _ => {},
    }
}

/// The bytes of an index: the starting slot, the offsets in two's complement and
/// the count, eight bytes each.
pub proof fn slot_index_layout(idx: SlotIndexView)
    ensures
        ({
            let s = idx.encoded();
            let n = idx.offsets.len() as int;
            &&& s.len() == 16 + 8 * n
            &&& number8(s, 0) == idx.starting_slot
            &&& number8(s, 8 + 8 * n) == idx.count
            &&& forall|i: int|
                0 <= i < n ==> (number8(s, 8 + 8 * i) - #[trigger] idx.offsets[i])
                    % 0x1_0000_0000_0000_0000 == 0
        }),
{
    let s = idx.encoded();
    let n = idx.offsets.len() as int;
    era::lemma_index_len(idx);
    era::slot_index_roundtrip(idx);
    lemma_word_at(s, 0);
    lemma_word_at(s, n + 1);
    assert(s.len() / 8 == n + 2);
    assert forall|i: int| 0 <= i < n implies (number8(s, 8 + 8 * i) - #[trigger] idx.offsets[i])
        % 0x1_0000_0000_0000_0000 == 0 by {
        lemma_word_at(s, i + 1);
        assert(idx.offsets[i] == era::slot_index_of(s)->Ok_0.offsets[i]);
    }
}

proof fn lemma_word_at(s: Seq<u8>, i: int)
    requires
        0 <= i,
        8 * i + 8 <= s.len(),
    ensures
        era::word_at(s, i) == number8(s, 8 * i),
        0 <= number8(s, 8 * i) < 0x1_0000_0000_0000_0000,
{
    let w = s.subrange(8 * i, 8 * i + 8);
    reveal_with_fuel(bytes::le_value, 9);
    let t1 = w.drop_first();
    let t2 = t1.drop_first();
    let t3 = t2.drop_first();
    let t4 = t3.drop_first();
    let t5 = t4.drop_first();
    let t6 = t5.drop_first();
    let t7 = t6.drop_first();
    assert(bytes::le_value(t7) == t7[0]);
    assert(bytes::le_value(t6) == t6[0] + 256 * bytes::le_value(t7));
    assert(bytes::le_value(t5) == t5[0] + 256 * bytes::le_value(t6));
    assert(bytes::le_value(t4) == t4[0] + 256 * bytes::le_value(t5));
    assert(bytes::le_value(t3) == t3[0] + 256 * bytes::le_value(t4));
    assert(bytes::le_value(t2) == t2[0] + 256 * bytes::le_value(t3));
    assert(bytes::le_value(t1) == t1[0] + 256 * bytes::le_value(t2));
    assert(bytes::le_value(w) == w[0] + 256 * bytes::le_value(t1));
}

/// Data is an index if it has room for the starting slot and the count, and
/// whole offsets between them. There are as many offsets as fit.
pub proof fn slot_index_reading(data: Seq<u8>)
    ensures
        era::slot_index_of(data) is Ok <==> data.len() >= 16 && data.len() % 8 == 0,
        era::slot_index_of(data) matches Err(message) ==> message
            == "invalid slot index data length: "@ + text::dec(data.len()),
        era::slot_index_of(data) matches Ok(idx) ==> {
            &&& idx.offsets.len() == (data.len() - 16) / 8
            &&& idx.starting_slot == number8(data, 0)
            &&& idx.count == number8(data, data.len() - 8)
            &&& forall|i: int|
                0 <= i < idx.offsets.len() ==> (number8(data, 8 + 8 * i)
                    - #[trigger] idx.offsets[i]) % 0x1_0000_0000_0000_0000 == 0
        },
{
    if era::slot_index_of(data) is Ok {
        let idx = era::slot_index_of(data)->Ok_0;
        era::slot_index_bytes_roundtrip(data);
        slot_index_layout(idx);
    }
}

/// The offsets that are counted as used are those that are not 0.
pub proof fn used_slots_counted(offsets: Seq<i64>)
    ensures
        era::used_slots(offsets) == offsets.filter(|o: i64| o != 0).len(),
    decreases offsets.len(),
{
    reveal(Seq::filter);
    if offsets.len() > 0 {
        used_slots_counted(offsets.drop_last());
    }
}

/// The bytes of a record: the hash, and then the total difficulty.
pub proof fn header_record_layout(record: HeaderRecord)
    ensures
        record.ssz().len() == 64,
        record.ssz().take(32) == record.block_hash@,
        record.ssz().skip(32) == record.total_difficulty.0@,
{
    assert(record.ssz().take(32) =~= record.block_hash@);
    assert(record.ssz().skip(32) =~= record.total_difficulty.0@);
}

/// The number 0 is 0 in all its bytes.
pub proof fn zero_in_all_bytes(i: int)
    requires
        0 <= i < 32,
    ensures
        era1::zero_difficulty().0[i] == 0,
{
}

} // verus!
