//! ERA file format: post-merge beacon chain history.
//!
//! An ERA file contains one era of 8192 slots:
//! - a version entry
//! - multiple compressed signed beacon blocks
//! - one compressed beacon state (the boundary state at the end of the era)
//! - slot indexes for random access

use std::io::{Read, Write};

use vstd::prelude::*;

use crate::bytes;
use crate::error::{Error, ErrorView, IoError, IoErrorKind, IoErrorView};
use crate::model;
use crate::text;

pub use crate::format::types::{
    TYPE_BLOCK_INDEX, TYPE_COMPRESSED_BEACON_STATE, TYPE_COMPRESSED_SIGNED_BEACON_BLOCK,
    TYPE_SLOT_INDEX, TYPE_STATE_INDEX,
};

verus! {

/// Number of slots per era.
pub const SLOTS_PER_ERA: u64 = 8192;

/// Slot index: maps slots to byte offsets within the file.
///
/// Layout: the starting slot (8 bytes), one offset per slot (8 bytes each), the
/// count (8 bytes). An offset of 0 means that there is no block for that slot.
/// Each offset is relative to the location of the index entry.
#[derive(Debug, Clone)]
pub struct SlotIndex {
    pub starting_slot: u64,
    pub offsets: Vec<i64>,
    pub count: u64,
}

/// The model of [`SlotIndex`].
#[verifier::ext_equal]
pub struct SlotIndexView {
    pub starting_slot: u64,
    pub offsets: Seq<i64>,
    pub count: u64,
}

impl View for SlotIndex {
    type V = SlotIndexView;

    open spec fn view(&self) -> SlotIndexView {
        SlotIndexView {
            starting_slot: self.starting_slot,
            offsets: self.offsets@,
            count: self.count,
        }
    }
}

/// How many of the offsets are not 0.
pub open spec fn used_slots(offsets: Seq<i64>) -> nat
    decreases offsets.len(),
{
    if offsets.len() == 0 {
        0
    } else {
        used_slots(offsets.drop_last()) + if offsets.last() != 0 {
            1nat
        } else {
            0nat
        }
    }
}

/// The `i`-th number of eight bytes in `data`.
pub open spec fn word_at(data: Seq<u8>, i: int) -> nat {
    bytes::le_value(data.subrange(8 * i, 8 * i + 8))
}

/// The slot index that the data of an index entry stands for.
pub open spec fn slot_index_of(data: Seq<u8>) -> Result<SlotIndexView, Seq<char>> {
    if data.len() < 16 || data.len() % 8 != 0 {
        Err("invalid slot index data length: "@ + text::dec(data.len()))
    } else {
        let n = data.len() / 8;
        Ok(
            SlotIndexView {
                starting_slot: word_at(data, 0) as u64,
                offsets: Seq::new(
                    (n - 2) as nat,
                    |i: int| bytes::signed64(word_at(data, i + 1)) as i64,
                ),
                count: word_at(data, n - 1) as u64,
            },
        )
    }
}

/// The bytes of a list of offsets.
pub open spec fn offset_bytes(offsets: Seq<i64>) -> Seq<u8>
    decreases offsets.len(),
{
    if offsets.len() == 0 {
        Seq::empty()
    } else {
        offset_bytes(offsets.drop_last()) + bytes::le_bytes(
            bytes::unsigned64(offsets.last() as int),
            8,
        )
    }
}

impl SlotIndexView {
    /// The data of the index entry.
    pub open spec fn encoded(self) -> Seq<u8> {
        bytes::le_bytes(self.starting_slot as nat, 8) + offset_bytes(self.offsets)
            + bytes::le_bytes(self.count as nat, 8)
    }
}

/// Each offset takes eight bytes.
pub proof fn lemma_offset_bytes_len(offsets: Seq<i64>)
    ensures
        offset_bytes(offsets).len() == 8 * offsets.len(),
    decreases offsets.len(),
{
    if offsets.len() > 0 {
        lemma_offset_bytes_len(offsets.drop_last());
        bytes::lemma_le_bytes_len(bytes::unsigned64(offsets.last() as int), 8);
    }
}

/// An index entry takes eight bytes per offset and sixteen more.
pub proof fn lemma_index_len(idx: SlotIndexView)
    ensures
        idx.encoded().len() == 16 + 8 * idx.offsets.len(),
{
    lemma_offset_bytes_len(idx.offsets);
    bytes::lemma_le_bytes_len(idx.starting_slot as nat, 8);
    bytes::lemma_le_bytes_len(idx.count as nat, 8);
}

proof fn lemma_offset_bytes_at(offsets: Seq<i64>, i: int)
    requires
        0 <= i < offsets.len(),
    ensures
        offset_bytes(offsets).subrange(8 * i, 8 * i + 8) == bytes::le_bytes(
            bytes::unsigned64(offsets[i] as int),
            8,
        ),
    decreases offsets.len(),
{
    let front = offsets.drop_last();
    lemma_offset_bytes_len(front);
    lemma_offset_bytes_len(offsets);
    bytes::lemma_le_bytes_len(bytes::unsigned64(offsets.last() as int), 8);
    if i < front.len() {
        lemma_offset_bytes_at(front, i);
        assert(offset_bytes(offsets).subrange(8 * i, 8 * i + 8) =~= offset_bytes(front).subrange(
            8 * i,
            8 * i + 8,
        ));
    } else {
        assert(offset_bytes(offsets).subrange(8 * i, 8 * i + 8) =~= bytes::le_bytes(
            bytes::unsigned64(offsets[i] as int),
            8,
        ));
    }
}

/// Decoding what an index encodes to gives the index back.
pub proof fn slot_index_roundtrip(idx: SlotIndexView)
    ensures
        slot_index_of(idx.encoded()) == Ok::<SlotIndexView, Seq<char>>(idx),
{
    let data = idx.encoded();
    let n = data.len() / 8;
    lemma_index_len(idx);
    lemma_offset_bytes_len(idx.offsets);
    bytes::lemma_le_limits();
    bytes::lemma_le_bytes_len(idx.starting_slot as nat, 8);
    bytes::lemma_le_bytes_len(idx.count as nat, 8);
    bytes::lemma_le_value_of_bytes(idx.starting_slot as nat, 8);
    bytes::lemma_le_value_of_bytes(idx.count as nat, 8);
    assert(data.subrange(0, 8) =~= bytes::le_bytes(idx.starting_slot as nat, 8));
    assert(data.subrange(8 * (n - 1), 8 * (n - 1) + 8) =~= bytes::le_bytes(idx.count as nat, 8));
    assert forall|i: int| 0 <= i < idx.offsets.len() implies bytes::signed64(
        #[trigger] word_at(data, i + 1),
    ) == idx.offsets[i] by {
        lemma_offset_bytes_at(idx.offsets, i);
        assert(data.subrange(8 * (i + 1), 8 * (i + 1) + 8) =~= offset_bytes(idx.offsets).subrange(
            8 * i,
            8 * i + 8,
        ));
        bytes::lemma_le_value_of_bytes(bytes::unsigned64(idx.offsets[i] as int), 8);
    }
    assert(slot_index_of(data)->Ok_0.offsets =~= idx.offsets);
}

/// Encoding what some data decodes to gives the data back.
pub proof fn slot_index_bytes_roundtrip(data: Seq<u8>)
    requires
        slot_index_of(data) is Ok,
    ensures
        slot_index_of(data)->Ok_0.encoded() == data,
{
    let idx = slot_index_of(data)->Ok_0;
    let n = data.len() / 8;
    bytes::lemma_le_limits();
    lemma_index_len(idx);
    lemma_offset_bytes_len(idx.offsets);
    bytes::lemma_le_bytes_of_value(data.subrange(0, 8));
    bytes::lemma_le_bytes_of_value(data.subrange(8 * (n - 1), 8 * (n - 1) + 8));
    let middle = data.subrange(8, 8 * (n - 1));
    assert forall|k: int| 0 <= k < middle.len() implies offset_bytes(idx.offsets)[k]
        == middle[k] by {
        let i = k / 8;
        lemma_offset_bytes_at(idx.offsets, i);
        let word = data.subrange(8 * (i + 1), 8 * (i + 1) + 8);
        bytes::lemma_le_bytes_of_value(word);
        assert(idx.offsets[i] == bytes::signed64(word_at(data, i + 1)));
        assert(bytes::unsigned64(idx.offsets[i] as int) == word_at(data, i + 1));
        assert(offset_bytes(idx.offsets).subrange(8 * i, 8 * i + 8) == word);
        assert(offset_bytes(idx.offsets).subrange(8 * i, 8 * i + 8)[k - 8 * i] == word[k - 8 * i]);
    }
    assert(offset_bytes(idx.offsets) =~= middle);
    assert(idx.encoded() =~= data);
}

/// How many of the offsets are not 0.
pub fn count_used(offsets: &Vec<i64>) -> (count: u64)
    ensures
        count == used_slots(offsets@),
        count <= offsets@.len(),
{
    let mut count: u64 = 0;
    let mut i: usize = 0;
    while i < offsets.len()
        invariant
            i <= offsets@.len(),
            count <= i,
            count == used_slots(offsets@.take(i as int)),
        decreases offsets@.len() - i,
    {
        assert(offsets@.take(i + 1).drop_last() =~= offsets@.take(i as int));
        if offsets[i] != 0 {
            count = count + 1;
        }
        i = i + 1;
    }
    assert(offsets@.take(i as int) =~= offsets@);
    count
}

impl SlotIndex {
    /// An index that counts its used slots.
    pub fn new(starting_slot: u64, offsets: Vec<i64>) -> (idx: Self)
        ensures
            idx@ == (SlotIndexView {
                starting_slot,
                offsets: offsets@,
                count: used_slots(offsets@) as u64,
            }),
            used_slots(offsets@) <= offsets@.len(),
    {
        let count: u64 = count_used(&offsets);
        SlotIndex { starting_slot, offsets, count }
    }

    pub fn with_count(starting_slot: u64, offsets: Vec<i64>, count: u64) -> (idx: Self)
        ensures
            idx@ == (SlotIndexView { starting_slot, offsets: offsets@, count }),
    {
        SlotIndex { starting_slot, offsets, count }
    }

    /// Decode a slot index from its e2store entry data.
    pub fn decode(data: &[u8]) -> (r: Result<Self, String>)
        ensures
            model::result_view(r) == slot_index_of(data@),
    {
        let len: usize = data.len();
        if len < 16 || (len - 16) % 8 != 0 {
            let mut s = "invalid slot index data length: ".to_owned();
            text::push_dec(&mut s, len as u64);
            return Err(s);
        }
        let starting_slot: u64 = bytes::read_u64(data, 0);
        let count_pos: usize = len - 8;
        let mut offsets: Vec<i64> = Vec::new();
        let mut pos: usize = 8;
        while pos < count_pos
            invariant
                data@.len() == len,
                len >= 16,
                len % 8 == 0,
                count_pos == len - 8,
                8 <= pos <= count_pos,
                pos == 8 * (offsets@.len() + 1),
                forall|i: int|
                    0 <= i < offsets@.len() ==> #[trigger] offsets@[i] == bytes::signed64(
                        word_at(data@, i + 1),
                    ),
            decreases count_pos - pos,
        {
            offsets.push(bytes::read_i64(data, pos));
            pos = pos + 8;
        }
        let count: u64 = bytes::read_u64(data, count_pos);
        let idx = SlotIndex { starting_slot, offsets, count };
        assert(8 * (len / 8 - 1) == count_pos);
        assert(idx@.offsets =~= slot_index_of(data@)->Ok_0.offsets);
        Ok(idx)
    }

    /// Encode to bytes.
    pub fn encode(&self) -> (buf: Vec<u8>)
        ensures
            buf@ == self@.encoded(),
    {
        let mut buf: Vec<u8> = Vec::new();
        bytes::push_u64(&mut buf, self.starting_slot);
        let mut i: usize = 0;
        proof {
            assert(buf@ =~= bytes::le_bytes(self.starting_slot as nat, 8) + offset_bytes(
                self.offsets@.take(0),
            ));
        }
        while i < self.offsets.len()
            invariant
                i <= self.offsets@.len(),
                buf@ == bytes::le_bytes(self.starting_slot as nat, 8) + offset_bytes(
                    self.offsets@.take(i as int),
                ),
            decreases self.offsets@.len() - i,
        {
            bytes::push_i64(&mut buf, self.offsets[i]);
            proof {
                let front = self.offsets@.take(i as int);
                let word = bytes::le_bytes(bytes::unsigned64(self.offsets@[i as int] as int), 8);
                assert(self.offsets@.take(i + 1).drop_last() =~= front);
                assert(buf@ =~= bytes::le_bytes(self.starting_slot as nat, 8) + (offset_bytes(front)
                    + word));
            }
            i = i + 1;
        }
        assert(self.offsets@.take(i as int) =~= self.offsets@);
        bytes::push_u64(&mut buf, self.count);
        buf
    }
}

/// What `snap::read::FrameDecoder` makes of a framed Snappy stream: the
/// decompressed bytes, or the text of the error it stops with.
pub uninterp spec fn snappy_decoded(data: Seq<u8>) -> Result<Seq<u8>, Seq<char>>;

/// What `snap::write::FrameEncoder` makes of plain bytes: the framed Snappy
/// stream.
pub uninterp spec fn snappy_encoded(data: Seq<u8>) -> Seq<u8>;

/// Whether `outcome` is a success that gives `data`.
pub open spec fn reads_back(outcome: Result<Seq<u8>, Seq<char>>, data: Seq<u8>) -> bool {
    outcome == Ok::<Seq<u8>, Seq<char>>(data)
}

/// `snap::read::FrameDecoder`, read to its end over `data`. Its result is a
/// function of `data`, which [`snappy_decoded`] names.
#[verifier::external_body]
fn snappy_decode(data: &[u8]) -> (r: Result<Vec<u8>, String>)
    ensures
        model::result_view(r) == snappy_decoded(data@),
{
    let mut decoder = snap::read::FrameDecoder::new(data);
    let mut out = Vec::new();
    match decoder.read_to_end(&mut out) {
        Ok(_) => Ok(out),
        Err(e) => Err(e.to_string()),
    }
}

/// `snap::write::FrameEncoder` into a `Vec`, given `data` in one write and
/// flushed. This does not fail: the encoder hands the compressor no more than it
/// takes, and a `Vec` takes every byte. The stream is a function of `data`, which
/// [`snappy_encoded`] names; and `snap::read::FrameDecoder` reads `data` back from
/// it.
#[verifier::external_body]
pub(crate) fn snappy_encode(data: &[u8]) -> (r: Result<Vec<u8>, String>)
    ensures
        r is Ok,
        r matches Ok(out) ==> out@ == snappy_encoded(data@),
        r matches Ok(out) ==> reads_back(snappy_decoded(out@), data@),
{
    let mut encoder = snap::write::FrameEncoder::new(Vec::new());
    match encoder.write_all(data).and_then(|_| encoder.flush()) {
        Ok(()) => Ok(encoder.get_ref().clone()),
        Err(e) => Err(e.to_string()),
    }
}

/// The error for a Snappy stream that cannot be read or written.
pub open spec fn snappy_failure(message: Seq<char>) -> ErrorView {
    ErrorView::Io(IoErrorView { kind: IoErrorKind::InvalidData, message })
}

/// What a Snappy call that ended with `outcome` means for the caller.
pub open spec fn payload_of(outcome: Result<Seq<u8>, Seq<char>>) -> Result<Seq<u8>, ErrorView> {
    match outcome {
        Ok(out) => Ok(out),
        Err(message) => Err(snappy_failure(message)),
    }
}

/// Turn the outcome of a Snappy call into a result of the library.
pub fn payload_from(outcome: Result<Vec<u8>, String>) -> (r: Result<Vec<u8>, Error>)
    ensures
        model::result_view(r) == payload_of(model::result_view(outcome)),
{
    match outcome {
        Ok(out) => Ok(out),
        Err(message) => Err(Error::Io(IoError::new(IoErrorKind::InvalidData, message))),
    }
}

/// Decompress the data of a compressed entry.
pub fn decompress_entry(data: &[u8]) -> (r: Result<Vec<u8>, Error>)
    ensures
        model::result_view(r) == payload_of(snappy_decoded(data@)),
{
    payload_from(snappy_decode(data))
}

} // verus!
