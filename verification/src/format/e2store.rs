//! e2store container format: the shared substrate of era and era1 files.
//!
//! An e2store file is a sequence of entries. Each entry is
//!   - an 8-byte header: type (2 bytes), length (4 bytes, little endian),
//!     reserved (2 bytes, zero)
//!   - `length` bytes of data
//!
//! The first entry must be a version entry (type 0x6532, length 0).

use vstd::prelude::*;

use crate::bytes;
use crate::error::{E2StoreError, E2StoreErrorView, IoError, IoErrorKind, IoErrorView};
use crate::format::types;
use crate::model;

pub use crate::format::types::TYPE_VERSION;

verus! {

/// e2store 8-byte entry header: type, length and the reserved field.
#[derive(Debug, Clone, Copy, PartialEq, Eq)]
pub struct Header {
    pub typ: [u8; 2],
    pub length: u32,
    pub reserved: u16,
}

/// The header that the first eight bytes of `src` stand for.
pub open spec fn header_of(src: Seq<u8>) -> Result<Header, E2StoreErrorView> {
    if src.len() < 8 {
        Err(E2StoreErrorView::TruncatedHeader(src.len() as usize))
    } else if bytes::le_value(src.subrange(6, 8)) != 0 {
        Err(E2StoreErrorView::NonZeroReserved(bytes::le_value(src.subrange(6, 8)) as u16))
    } else {
        Ok(
            Header {
                typ: [src[0], src[1]],
                length: bytes::le_value(src.subrange(2, 6)) as u32,
                reserved: 0,
            },
        )
    }
}

/// The eight bytes of a header.
pub open spec fn header_bytes(h: Header) -> Seq<u8> {
    seq![h.typ[0], h.typ[1]] + bytes::le_bytes(h.length as nat, 4) + bytes::le_bytes(
        h.reserved as nat,
        2,
    )
}

impl Header {
    pub const SIZE: usize = 8;

    pub fn new(typ: [u8; 2], length: u32) -> (h: Self)
        ensures
            h == (Header { typ, length, reserved: 0 }),
    {
        Header { typ, length, reserved: 0 }
    }

    /// Decode from 8 bytes.
    pub fn decode(src: &[u8]) -> (r: Result<Self, E2StoreError>)
        ensures
            model::outcome(r) == header_of(src@),
    {
        if src.len() < Self::SIZE {
            return Err(E2StoreError::TruncatedHeader(src.len()));
        }
        let typ: [u8; 2] = [src[0], src[1]];
        let length: u32 = bytes::read_u32(src, 2);
        let reserved: u16 = bytes::read_u16(src, 6);
        if reserved != 0 {
            return Err(E2StoreError::NonZeroReserved(reserved));
        }
        Ok(Header { typ, length, reserved })
    }

    /// Encode to 8 bytes.
    pub fn encode(&self) -> (buf: [u8; 8])
        ensures
            buf@ == header_bytes(*self),
    {
        let l: u32 = self.length;
        let buf: [u8; 8] = [
            self.typ[0],
            self.typ[1],
            (l % 256) as u8,
            (l / 256 % 256) as u8,
            (l / 256 / 256 % 256) as u8,
            (l / 256 / 256 / 256) as u8,
            (self.reserved % 256) as u8,
            (self.reserved / 256) as u8,
        ];
        proof {
            reveal_with_fuel(bytes::le_bytes, 5);
            assert(buf@ =~= header_bytes(*self));
        }
        buf
    }

    pub fn is_version(&self) -> (b: bool)
        ensures
            b == (self.typ == types::TYPE_VERSION),
    {
        types::same_type(self.typ, types::TYPE_VERSION)
    }
}

/// A parsed e2store entry: header and owned data.
#[derive(Debug, Clone)]
pub struct Entry {
    pub header: Header,
    pub data: Vec<u8>,
}

/// The model of [`Entry`].
#[verifier::ext_equal]
pub struct EntryView {
    pub header: Header,
    pub data: Seq<u8>,
}

impl View for Entry {
    type V = EntryView;

    open spec fn view(&self) -> EntryView {
        EntryView { header: self.header, data: self.data@ }
    }
}

/// An entry of type `typ` that carries `data`.
pub open spec fn entry_of(typ: [u8; 2], data: Seq<u8>) -> EntryView {
    EntryView { header: Header { typ, length: data.len() as u32, reserved: 0 }, data }
}

impl EntryView {
    /// The header tells the length of the data, and the reserved field is zero.
    pub open spec fn wf(self) -> bool {
        self.header.length == self.data.len() && self.header.reserved == 0
    }

    /// The bytes of the entry in a file.
    pub open spec fn encoded(self) -> Seq<u8> {
        header_bytes(self.header) + self.data
    }
}

impl Entry {
    /// An entry of type `typ` that carries `data`.
    pub fn new(typ: [u8; 2], data: Vec<u8>) -> (e: Self)
        requires
            data@.len() <= u32::MAX,
        ensures
            e@ == entry_of(typ, data@),
    {
        let length: u32 = data.len() as u32;
        Entry { header: Header::new(typ, length), data }
    }

    /// The version entry.
    pub fn version() -> (e: Self)
        ensures
            e@ == entry_of(types::TYPE_VERSION, Seq::empty()),
    {
        Self::new(types::TYPE_VERSION, Vec::new())
    }
}

/// What [`E2StoreReader::next_entry`] finds at the start of `s`.
pub open spec fn next_entry_of(s: Seq<u8>) -> Result<Option<EntryView>, IoErrorView> {
    if s.len() < 8 {
        Ok(None)
    } else {
        match header_of(s.take(8)) {
            Err(e) => Err(IoErrorView { kind: IoErrorKind::InvalidData, message: e.text() }),
            Ok(header) => if s.len() < 8 + header.length {
                Err(short_read())
            } else {
                Ok(Some(EntryView { header, data: s.subrange(8, 8 + header.length) }))
            },
        }
    }
}

/// What is left to read of `s` after [`E2StoreReader::next_entry`].
pub open spec fn after_entry(s: Seq<u8>) -> Seq<u8> {
    match next_entry_of(s) {
        Ok(Some(e)) => s.skip(8 + e.data.len() as int),
        Ok(None) => Seq::empty(),
        Err(e) => if e.kind == IoErrorKind::InvalidData {
            s.skip(8)
        } else {
            Seq::empty()
        },
    }
}

/// The failure of a read beyond the end of the source.
pub open spec fn short_read() -> IoErrorView {
    IoErrorView { kind: IoErrorKind::UnexpectedEof, message: "failed to fill whole buffer"@ }
}

/// The entries of a source, up to its end or to the first one that cannot be read.
pub open spec fn stream_entries(s: Seq<u8>) -> Seq<EntryView>
    decreases s.len(),
{
    match next_entry_of(s) {
        Ok(Some(e)) => seq![e] + stream_entries(after_entry(s)),
        _ => Seq::empty(),
    }
}

/// Why the entries of a source stop before its end, if they do.
pub open spec fn stream_failure(s: Seq<u8>) -> Option<IoErrorView>
    decreases s.len(),
{
    match next_entry_of(s) {
        Ok(Some(e)) => stream_failure(after_entry(s)),
        Ok(None) => None,
        Err(e) => Some(e),
    }
}

/// What [`E2StoreReader::read_all`] makes of a source.
pub open spec fn all_entries_of(s: Seq<u8>) -> Result<Seq<EntryView>, IoErrorView> {
    match next_entry_of(s) {
        Err(e) => Err(e),
        Ok(None) => Err(
            IoErrorView { kind: IoErrorKind::UnexpectedEof, message: "empty e2store file"@ },
        ),
        Ok(Some(first)) => if first.header.typ != types::TYPE_VERSION {
            Err(
                IoErrorView {
                    kind: IoErrorKind::InvalidData,
                    message: "first entry is not a version entry"@,
                },
            )
        } else {
            match stream_failure(s) {
                Some(e) => Err(e),
                None => Ok(stream_entries(s)),
            }
        },
    }
}

/// What [`E2StoreReader::next_header_only`] finds at the start of `s`.
pub open spec fn next_header_of(s: Seq<u8>) -> Result<Option<Header>, IoErrorView> {
    if s.len() < 8 {
        Ok(None)
    } else {
        match header_of(s.take(8)) {
            Err(e) => Err(IoErrorView { kind: IoErrorKind::InvalidData, message: e.text() }),
            Ok(header) => Ok(Some(header)),
        }
    }
}

/// What is left of `s` after [`E2StoreReader::next_header_only`]: data that the
/// source does not hold is skipped all the same.
pub open spec fn after_header(s: Seq<u8>) -> Seq<u8> {
    match next_header_of(s) {
        Ok(Some(h)) => if s.len() < 8 + h.length {
            Seq::empty()
        } else {
            s.skip(8 + h.length)
        },
        Ok(None) => Seq::empty(),
        Err(_) => s.skip(8),
    }
}

/// The headers of a source, up to its end or to the first one that is malformed.
pub open spec fn stream_headers(s: Seq<u8>) -> Seq<Header>
    decreases s.len(),
{
    match next_header_of(s) {
        Ok(Some(h)) => seq![h] + stream_headers(after_header(s)),
        _ => Seq::empty(),
    }
}

/// Why the headers of a source stop before its end, if they do.
pub open spec fn header_failure(s: Seq<u8>) -> Option<IoErrorView>
    decreases s.len(),
{
    match next_header_of(s) {
        Ok(Some(h)) => header_failure(after_header(s)),
        Ok(None) => None,
        Err(e) => Some(e),
    }
}

/// What is left of `s` after [`E2StoreReader::scan_all_headers`].
pub open spec fn after_headers(s: Seq<u8>) -> Seq<u8>
    decreases s.len(),
{
    match next_header_of(s) {
        Ok(Some(h)) => after_headers(after_header(s)),
        _ => after_header(s),
    }
}

/// Reads e2store entries from a byte source.
pub struct E2StoreReader<'a> {
    inner: &'a [u8],
}

impl<'a> View for E2StoreReader<'a> {
    type V = Seq<u8>;

    /// The bytes that are still to be read.
    closed spec fn view(&self) -> Seq<u8> {
        self.inner@
    }
}

impl<'a> E2StoreReader<'a> {
    pub fn new(inner: &'a [u8]) -> (r: Self)
        ensures
            r@ == inner@,
    {
        E2StoreReader { inner }
    }

    /// Move the reading position `n` bytes ahead.
    fn advance(&mut self, n: usize)
        requires
            n <= old(self)@.len(),
        ensures
            final(self)@ == old(self)@.skip(n as int),
    {
        let len: usize = self.inner.len();
        self.inner = vstd::slice::slice_subrange(self.inner, n, len);
        assert(self@ =~= old(self)@.skip(n as int));
    }

    /// Move the reading position to the end.
    fn exhaust(&mut self)
        ensures
            final(self)@ == Seq::<u8>::empty(),
    {
        let len: usize = self.inner.len();
        self.advance(len);
        assert(self@ =~= Seq::<u8>::empty());
    }

    /// Read the next entry. Returns `Ok(None)` at the end.
    pub fn next_entry(&mut self) -> (r: Result<Option<Entry>, IoError>)
        ensures
            final(self)@ == after_entry(old(self)@),
            model::found_view(r) == next_entry_of(old(self)@),
    {
        if self.inner.len() < Header::SIZE {
            self.exhaust();
            return Ok(None);
        }
        let head: &[u8] = vstd::slice::slice_subrange(self.inner, 0, Header::SIZE);
        assert(head@ =~= old(self)@.take(8));
        let header = match Header::decode(head) {
            Ok(header) => header,
            Err(e) => {
                self.advance(Header::SIZE);
                return Err(IoError::new(IoErrorKind::InvalidData, e.to_string()));
            },
        };
        let length: usize = header.length as usize;
        if self.inner.len() - Header::SIZE < length {
            self.exhaust();
            return Err(
                IoError::new(IoErrorKind::UnexpectedEof, "failed to fill whole buffer".to_owned()),
            );
        }
        let end: usize = Header::SIZE + length;
        let data = bytes::copy_range(self.inner, Header::SIZE, end);
        self.advance(end);
        Ok(Some(Entry { header, data }))
    }

    /// Read the next entry's header and skip its data without reading it.
    /// Returns `Ok(None)` at the end.
    pub fn next_header_only(&mut self) -> (r: Result<Option<Header>, IoError>)
        ensures
            final(self)@ == after_header(old(self)@),
            model::outcome(r) == next_header_of(old(self)@),
    {
        if self.inner.len() < Header::SIZE {
            self.exhaust();
            return Ok(None);
        }
        let head: &[u8] = vstd::slice::slice_subrange(self.inner, 0, Header::SIZE);
        assert(head@ =~= old(self)@.take(8));
        let header = match Header::decode(head) {
            Ok(header) => header,
            Err(e) => {
                self.advance(Header::SIZE);
                return Err(IoError::new(IoErrorKind::InvalidData, e.to_string()));
            },
        };
        let length: usize = header.length as usize;
        if self.inner.len() - Header::SIZE < length {
            self.exhaust();
        } else {
            self.advance(Header::SIZE + length);
        }
        Ok(Some(header))
    }

    /// Read all headers, skipping the data in between.
    pub fn scan_all_headers(&mut self) -> (r: Result<Vec<Header>, IoError>)
        ensures
            final(self)@ == after_headers(old(self)@),
            match r {
                Ok(headers) => headers@ == stream_headers(old(self)@) && header_failure(
                    old(self)@,
                ) is None,
                Err(e) => header_failure(old(self)@) == Some(e@),
            },
    {
        let mut headers: Vec<Header> = Vec::new();
        let ghost all = self@;
        assert(headers@ + stream_headers(self@) =~= stream_headers(all));
        loop
            invariant
                stream_headers(all) == headers@ + stream_headers(self@),
                header_failure(all) == header_failure(self@),
                after_headers(all) == after_headers(self@),
                all == old(self)@,
            decreases self@.len(),
        {
            let ghost before = self@;
            let ghost so_far = headers@;
            match self.next_header_only() {
                Ok(Some(h)) => {
                    headers.push(h);
                    proof {
                        assert(so_far + (seq![h] + stream_headers(self@)) =~= headers@
                            + stream_headers(self@));
                    }
                },
                Ok(None) => {
                    assert(stream_headers(all) =~= headers@);
                    return Ok(headers);
                },
                Err(e) => {
                    return Err(e);
                },
            }
        }
    }

    /// Read all entries, validating that the first is a version entry.
    pub fn read_all(self) -> (r: Result<Vec<Entry>, IoError>)
        ensures
            model::list_view(r) == all_entries_of(self@),
    {
        let mut reader = self;
        let ghost all = reader@;
        let mut entries: Vec<Entry> = Vec::new();
        match reader.next_entry() {
            Err(e) => {
                return Err(e);
            },
            Ok(None) => {
                return Err(
                    IoError::new(IoErrorKind::UnexpectedEof, "empty e2store file".to_owned()),
                );
            },
            Ok(Some(first)) => {
                if !first.header.is_version() {
                    return Err(
                        IoError::new(
                            IoErrorKind::InvalidData,
                            "first entry is not a version entry".to_owned(),
                        ),
                    );
                }
                entries.push(first);
                assert(model::views(entries@) =~= seq![first@]);
            },
        }
        loop
            invariant
                stream_entries(all) == model::views(entries@) + stream_entries(reader@),
                stream_failure(all) == stream_failure(reader@),
                all == self@,
                next_entry_of(all) matches Ok(Some(e)) && e.header.typ == types::TYPE_VERSION,
            decreases reader@.len(),
        {
            let ghost before = reader@;
            let ghost so_far = entries@;
            match reader.next_entry() {
                Ok(Some(e)) => {
                    entries.push(e);
                    proof {
                        model::lemma_views_push(so_far, e);
                        assert(model::views(so_far) + (seq![e@] + stream_entries(reader@))
                            =~= model::views(entries@) + stream_entries(reader@));
                    }
                },
                Ok(None) => {
                    assert(stream_entries(all) =~= model::views(entries@));
                    return Ok(entries);
                },
                Err(e) => {
                    return Err(e);
                },
            }
        }
    }

    /// Unwrap the source: the bytes that have not been read.
    pub fn into_inner(self) -> (inner: &'a [u8])
        ensures
            inner@ == self@,
    {
        self.inner
    }
}

/// The bytes of a file that holds `entries`, one after the other.
pub open spec fn file_bytes(entries: Seq<EntryView>) -> Seq<u8>
    decreases entries.len(),
{
    if entries.len() == 0 {
        Seq::empty()
    } else {
        file_bytes(entries.drop_last()) + entries.last().encoded()
    }
}

/// Where the entry at `i` starts in a file that holds `entries`.
pub open spec fn entry_pos(entries: Seq<EntryView>, i: int) -> nat {
    file_bytes(entries.take(i)).len()
}

/// Whether all of `entries` can be read back.
pub open spec fn all_wf(entries: Seq<EntryView>) -> bool {
    forall|i: int| 0 <= i < entries.len() ==> (#[trigger] entries[i]).wf()
}

/// A header takes eight bytes.
pub proof fn lemma_header_len(h: Header)
    ensures
        header_bytes(h).len() == 8,
{
    bytes::lemma_le_bytes_len(h.length as nat, 4);
    bytes::lemma_le_bytes_len(h.reserved as nat, 2);
}

/// Decoding an encoded header gives the header back, or refuses it if its
/// reserved field is not zero.
pub proof fn header_roundtrip(h: Header)
    ensures
        header_of(header_bytes(h)) == if h.reserved == 0 {
            Ok::<Header, E2StoreErrorView>(h)
        } else {
            Err(E2StoreErrorView::NonZeroReserved(h.reserved))
        },
{
    let s = header_bytes(h);
    lemma_header_len(h);
    bytes::lemma_le_limits();
    bytes::lemma_le_bytes_len(h.length as nat, 4);
    bytes::lemma_le_bytes_len(h.reserved as nat, 2);
    bytes::lemma_le_value_of_bytes(h.length as nat, 4);
    bytes::lemma_le_value_of_bytes(h.reserved as nat, 2);
    assert(s.subrange(2, 6) =~= bytes::le_bytes(h.length as nat, 4));
    assert(s.subrange(6, 8) =~= bytes::le_bytes(h.reserved as nat, 2));
    assert([s[0], s[1]] =~= h.typ);
}

/// An entry that stands at the start of a source is the next one to be read.
pub proof fn entry_read_back(e: EntryView, rest: Seq<u8>)
    requires
        e.wf(),
    ensures
        next_entry_of(e.encoded() + rest) == Ok::<Option<EntryView>, IoErrorView>(Some(e)),
        after_entry(e.encoded() + rest) == rest,
        next_header_of(e.encoded() + rest) == Ok::<Option<Header>, IoErrorView>(Some(e.header)),
        after_header(e.encoded() + rest) == rest,
{
    let s = e.encoded() + rest;
    lemma_header_len(e.header);
    header_roundtrip(e.header);
    assert(s.take(8) =~= header_bytes(e.header));
    assert(s.subrange(8, 8 + e.header.length) =~= e.data);
    assert(s.skip(8 + e.data.len() as int) =~= rest);
}

/// The bytes of a file are those of its first entry and then those of the rest.
pub proof fn lemma_file_first(entries: Seq<EntryView>)
    requires
        entries.len() > 0,
    ensures
        file_bytes(entries) == entries[0].encoded() + file_bytes(entries.skip(1)),
    decreases entries.len(),
{
    let front = entries.drop_last();
    if front.len() == 0 {
        assert(entries.skip(1) =~= Seq::empty());
        assert(file_bytes(front) =~= Seq::empty());
        assert(file_bytes(entries) =~= entries[0].encoded() + file_bytes(entries.skip(1)));
    } else {
        lemma_file_first(front);
        assert(entries.skip(1).drop_last() =~= front.skip(1));
        assert(file_bytes(entries) =~= entries[0].encoded() + (file_bytes(front.skip(1))
            + entries.last().encoded()));
    }
}

/// A file that holds the entries of two lists holds their bytes in order.
pub proof fn lemma_file_concat(a: Seq<EntryView>, b: Seq<EntryView>)
    ensures
        file_bytes(a + b) == file_bytes(a) + file_bytes(b),
    decreases b.len(),
{
    if b.len() == 0 {
        assert(a + b =~= a);
        assert(file_bytes(a) + file_bytes(b) =~= file_bytes(a));
    } else {
        lemma_file_concat(a, b.drop_last());
        assert((a + b).drop_last() =~= a + b.drop_last());
        assert(file_bytes(a + b) =~= file_bytes(a) + file_bytes(b));
    }
}

/// Writing entries and reading the file gives the same entries.
pub proof fn entries_read_back(entries: Seq<EntryView>)
    requires
        all_wf(entries),
    ensures
        stream_entries(file_bytes(entries)) == entries,
        stream_failure(file_bytes(entries)) is None,
    decreases entries.len(),
{
    let s = file_bytes(entries);
    if entries.len() > 0 {
        let rest = entries.skip(1);
        lemma_file_first(entries);
        entry_read_back(entries[0], file_bytes(rest));
        assert forall|i: int| 0 <= i < rest.len() implies (#[trigger] rest[i]).wf() by {
            assert(rest[i] == entries[i + 1]);
        }
        entries_read_back(rest);
        assert(entries =~= seq![entries[0]] + rest);
    }
}

/// Writing entries and scanning the file gives their headers.
pub proof fn headers_read_back(entries: Seq<EntryView>)
    requires
        all_wf(entries),
    ensures
        stream_headers(file_bytes(entries)) == entries.map_values(|e: EntryView| e.header),
        header_failure(file_bytes(entries)) is None,
    decreases entries.len(),
{
    let s = file_bytes(entries);
    let headers = entries.map_values(|e: EntryView| e.header);
    if entries.len() > 0 {
        let rest = entries.skip(1);
        lemma_file_first(entries);
        entry_read_back(entries[0], file_bytes(rest));
        assert forall|i: int| 0 <= i < rest.len() implies (#[trigger] rest[i]).wf() by {
            assert(rest[i] == entries[i + 1]);
        }
        headers_read_back(rest);
        assert(headers =~= seq![entries[0].header] + rest.map_values(|e: EntryView| e.header));
    } else {
        assert(headers =~= Seq::empty());
    }
}

/// The entries that were read, and what follows them, are the bytes of the
/// source: reading loses nothing.
pub proof fn entries_cover_source(s: Seq<u8>)
    ensures
        all_wf(stream_entries(s)),
        file_bytes(stream_entries(s)).len() <= s.len(),
        s.take(file_bytes(stream_entries(s)).len() as int) == file_bytes(stream_entries(s)),
        stream_failure(s) is None ==> s.len() < file_bytes(stream_entries(s)).len() + 8,
    decreases s.len(),
{
    let entries = stream_entries(s);
    match next_entry_of(s) {
        Ok(Some(e)) => {
            let rest = after_entry(s);
            entries_cover_source(rest);
            lemma_file_first(entries);
            assert(entries.skip(1) =~= stream_entries(rest));
            lemma_entry_encoded(s);
            let n = file_bytes(stream_entries(rest)).len() as int;
            assert(s.take(e.encoded().len() + n) =~= s.take(e.encoded().len() as int) + rest.take(
                n,
            ));
            assert forall|i: int| 0 <= i < entries.len() implies (#[trigger] entries[i]).wf() by {
                if i > 0 {
                    assert(entries[i] == stream_entries(rest)[i - 1]);
                }
            }
        },
        _ => {
            assert(s.take(0) =~= Seq::empty());
        },
    }
}

/// The entry at the start of a source stands there in its encoded form.
pub proof fn lemma_entry_encoded(s: Seq<u8>)
    requires
        next_entry_of(s) matches Ok(Some(_)),
    ensures
        next_entry_of(s)->Ok_0->Some_0.wf(),
        next_entry_of(s)->Ok_0->Some_0.encoded().len() == 8 + next_entry_of(
            s,
        )->Ok_0->Some_0.data.len() <= s.len(),
        s.take(next_entry_of(s)->Ok_0->Some_0.encoded().len() as int) == next_entry_of(
            s,
        )->Ok_0->Some_0.encoded(),
{
    let e = next_entry_of(s)->Ok_0->Some_0;
    let head = s.take(8);
    bytes::lemma_le_bytes_of_value(head.subrange(2, 6));
    bytes::lemma_le_bytes_of_value(head.subrange(6, 8));
    bytes::lemma_le_limits();
    lemma_header_len(e.header);
    assert(e.header.typ@ =~= seq![head[0], head[1]]);
    assert(header_bytes(e.header) =~= head);
    assert(s.take(e.encoded().len() as int) =~= e.encoded());
}

/// Writing a version and other entries and reading the file whole gives the
/// same entries.
pub proof fn file_roundtrip(entries: Seq<EntryView>)
    requires
        all_wf(entries),
        entries.len() > 0,
        entries[0].header.typ == types::TYPE_VERSION,
    ensures
        all_entries_of(file_bytes(entries)) == Ok::<Seq<EntryView>, IoErrorView>(entries),
{
    lemma_file_first(entries);
    entry_read_back(entries[0], file_bytes(entries.skip(1)));
    entries_read_back(entries);
}

/// Scanning the headers of a source that can be read gives the headers of its
/// entries.
pub proof fn scan_agrees(s: Seq<u8>)
    requires
        stream_failure(s) is None,
    ensures
        stream_headers(s) == stream_entries(s).map_values(|e: EntryView| e.header),
        header_failure(s) is None,
    decreases s.len(),
{
    match next_entry_of(s) {
        Ok(Some(e)) => {
            scan_agrees(after_entry(s));
            assert(after_header(s) =~= after_entry(s));
            let rest = stream_entries(after_entry(s));
            assert((seq![e] + rest).map_values(|e: EntryView| e.header) =~= seq![e.header]
                + rest.map_values(|e: EntryView| e.header));
        },
        _ => {
            assert(stream_entries(s).map_values(|e: EntryView| e.header) =~= Seq::empty());
        },
    }
}

} // verus!
