//! Headers, entries, indexes, records and names.

use std::io::Write;

use brandon::error::{E2StoreError, Error, IoError, IoErrorKind};
use brandon::format::e2store::{E2StoreReader, Header, TYPE_VERSION};
use brandon::format::era::{decompress_entry, payload_from, SlotIndex};
use brandon::format::era1::{HeaderRecord, U256};
use brandon::format::Entry;
use brandon::fs::naming::ParsedArchiveName;
use brandon::write::E2StoreWriter;
use snap::write::FrameEncoder;

#[test]
fn decode_version_header() {
    let bytes = [0x65, 0x32, 0x00, 0x00, 0x00, 0x00, 0x00, 0x00];
    let h = Header::decode(&bytes).unwrap();
    assert_eq!(h.typ, TYPE_VERSION);
    assert_eq!(h.length, 0);
    assert!(h.is_version());
}

#[test]
fn encode_decode_roundtrip() {
    let h = Header::new([0x01, 0x00], 42);
    let encoded = h.encode();
    let decoded = Header::decode(&encoded).unwrap();
    assert_eq!(h, decoded);
}

#[test]
fn reject_nonzero_reserved() {
    let bytes = [0x65, 0x32, 0x00, 0x00, 0x00, 0x00, 0x01, 0x00];
    assert!(Header::decode(&bytes).is_err());
}

#[test]
fn reject_truncated() {
    assert!(Header::decode(&[0x65, 0x32, 0x00]).is_err());
}

#[test]
fn read_single_version_entry() {
    let data = [0x65, 0x32, 0x00, 0x00, 0x00, 0x00, 0x00, 0x00];
    let mut reader = E2StoreReader::new(&data[..]);
    let entry = reader.next_entry().unwrap().unwrap();
    assert!(entry.header.is_version());
    assert!(entry.data.is_empty());
    assert!(reader.next_entry().unwrap().is_none());
}

#[test]
fn read_all_validates_version_first() {
    // Version + one data entry (type 0x0100, 3 bytes "foo")
    let mut buf = Vec::new();
    buf.extend_from_slice(&[0x65, 0x32, 0x00, 0x00, 0x00, 0x00, 0x00, 0x00]); // version
    buf.extend_from_slice(&[0x01, 0x00, 0x03, 0x00, 0x00, 0x00, 0x00, 0x00]); // header
    buf.extend_from_slice(b"foo"); // data

    let reader = E2StoreReader::new(&buf[..]);
    let entries = reader.read_all().unwrap();
    assert_eq!(entries.len(), 2);
    assert_eq!(entries[1].data, b"foo");
}

#[test]
fn read_all_rejects_missing_version() {
    let buf = [
        0x01, 0x00, 0x03, 0x00, 0x00, 0x00, 0x00, 0x00, b'f', b'o', b'o',
    ];
    let reader = E2StoreReader::new(&buf[..]);
    assert!(reader.read_all().is_err());
}

#[test]
fn slot_index_roundtrip() {
    let idx = SlotIndex::new(0, vec![0, 100, 200, 0, 300]);
    let encoded = idx.encode();
    let decoded = SlotIndex::decode(&encoded).unwrap();
    assert_eq!(decoded.starting_slot, 0);
    assert_eq!(decoded.offsets, vec![0, 100, 200, 0, 300]);
    assert_eq!(decoded.count, 3);
}

#[test]
fn slot_index_rejects_bad_length() {
    assert!(SlotIndex::decode(&[0; 7]).is_err()); // too short
    assert!(SlotIndex::decode(&[0; 13]).is_err()); // not aligned
}

#[test]
fn header_record_roundtrip() {
    let mut hash = [0u8; 32];
    hash[0] = 0xab;
    let mut td = [0u8; 32];
    td[0] = 0x01;
    let record = HeaderRecord {
        block_hash: hash,
        total_difficulty: U256(td),
    };
    let encoded = record.encode_ssz();
    assert_eq!(encoded.len(), 64);
    let decoded = HeaderRecord::decode_ssz(&encoded).unwrap();
    assert_eq!(record, decoded);
}

#[test]
fn header_record_rejects_short() {
    assert!(HeaderRecord::decode_ssz(&[0; 63]).is_err());
}

#[test]
fn parse_era() {
    let p = ParsedArchiveName::parse("mainnet-00090-56a5eb95.era").unwrap();
    assert_eq!(p.network, "mainnet");
    assert_eq!(p.era_number, 90);
    assert_eq!(p.extension, "era");
}

#[test]
fn error_texts() {
    assert_eq!(
        E2StoreError::TruncatedHeader(3).to_string(),
        "truncated header: expected 8 bytes, got 3"
    );
    assert_eq!(
        E2StoreError::NonZeroReserved(7).to_string(),
        "non-zero reserved field: 7"
    );
    assert_eq!(
        E2StoreError::UnexpectedType {
            expected: [0x65, 0x32],
            actual: [1, 0],
        }
        .to_string(),
        "unexpected entry type: expected [101, 50], got [1, 0]"
    );
    assert_eq!(
        E2StoreError::MissingVersion.to_string(),
        "missing version entry as first entry"
    );
    assert_eq!(
        E2StoreError::OverlongEntry {
            declared: 100,
            available: 5,
        }
        .to_string(),
        "entry data length exceeds remaining file: declared 100, available 5"
    );
    assert_eq!(
        Error::E2Store(E2StoreError::InvalidEra("x".to_string())).to_string(),
        "e2store parse error: invalid era file: x"
    );
    assert_eq!(
        E2StoreError::InvalidEra1("x".to_string()).to_string(),
        "invalid era1 file: x"
    );
    assert_eq!(
        E2StoreError::InvalidManifest("x".to_string()).to_string(),
        "invalid manifest: x"
    );
    assert_eq!(
        Error::Io(IoError::new(IoErrorKind::UnexpectedEof, "short".to_string())).to_string(),
        "io error: short"
    );
}

#[test]
fn header_errors() {
    assert!(matches!(
        Header::decode(&[0; 5]),
        Err(E2StoreError::TruncatedHeader(5))
    ));
    assert!(matches!(
        Header::decode(&[1, 0, 0, 0, 0, 0, 2, 1]),
        Err(E2StoreError::NonZeroReserved(0x0102))
    ));
}

#[test]
fn header_bytes() {
    let header = Header::new([0x02, 0x01], 0x0a0b0c0d);
    assert_eq!(header.encode(), [0x02, 0x01, 0x0d, 0x0c, 0x0b, 0x0a, 0, 0]);
    assert_eq!(Header::decode(&header.encode()).unwrap(), header);
}

#[test]
fn headers_are_scanned_past_the_data() {
    let mut w = E2StoreWriter::new(Vec::new());
    w.write_entry(&Entry::version()).unwrap();
    w.write_entry(&Entry::new([1, 0], vec![7; 10])).unwrap();
    w.write_entry(&Entry::new([2, 0], vec![])).unwrap();
    let data = w.into_inner();

    let headers = E2StoreReader::new(&data).scan_all_headers().unwrap();
    assert_eq!(
        headers,
        vec![
            Header::new(TYPE_VERSION, 0),
            Header::new([1, 0], 10),
            Header::new([2, 0], 0),
        ]
    );

    let mut reader = E2StoreReader::new(&data);
    assert_eq!(
        reader.next_header_only().unwrap(),
        Some(Header::new(TYPE_VERSION, 0))
    );
    assert_eq!(
        reader.next_header_only().unwrap(),
        Some(Header::new([1, 0], 10))
    );
    assert_eq!(reader.into_inner(), &data[26..]);
}

#[test]
fn entries_read_back_and_cover_the_file() {
    let mut w = E2StoreWriter::new(Vec::new());
    let entries = vec![
        Entry::version(),
        Entry::new([1, 0], vec![1, 2, 3]),
        Entry::new([0xff, 0xff], vec![]),
    ];
    w.write_all(&entries).unwrap();
    let data = w.into_inner();
    assert_eq!(data.len(), 3 * 8 + 3);
    let read = E2StoreReader::new(&data).read_all().unwrap();
    assert_eq!(read.len(), 3);
    for (a, b) in entries.iter().zip(read.iter()) {
        assert_eq!(a.header, b.header);
        assert_eq!(a.data, b.data);
    }
}

#[test]
fn short_data_is_an_io_error() {
    let mut data = Header::new([1, 0], 10).encode().to_vec();
    data.push(0);
    let mut reader = E2StoreReader::new(&data);
    match reader.next_entry() {
        Err(e) => assert_eq!(e.kind, IoErrorKind::UnexpectedEof),
        Ok(_) => panic!("expected an error"),
    }
    // Less than a header is the end
    assert!(E2StoreReader::new(&data[..5]).next_entry().unwrap().is_none());
    let mut bad = Header::new([1, 0], 0).encode();
    bad[6] = 1;
    match E2StoreReader::new(&bad).next_entry() {
        Err(e) => {
            assert_eq!(e.kind, IoErrorKind::InvalidData);
            assert_eq!(e.to_string(), "non-zero reserved field: 1");
        }
        Ok(_) => panic!("expected an error"),
    }
}

#[test]
fn slot_index_bytes() {
    let idx = SlotIndex::with_count(3, vec![-2, 0], 9);
    let mut expected = vec![3, 0, 0, 0, 0, 0, 0, 0];
    expected.extend_from_slice(&[0xfe, 0xff, 0xff, 0xff, 0xff, 0xff, 0xff, 0xff]);
    expected.extend_from_slice(&[0; 8]);
    expected.extend_from_slice(&[9, 0, 0, 0, 0, 0, 0, 0]);
    assert_eq!(idx.encode(), expected);
    let back = SlotIndex::decode(&expected).unwrap();
    assert_eq!(back.starting_slot, 3);
    assert_eq!(back.offsets, vec![-2, 0]);
    assert_eq!(back.count, 9);
}

#[test]
fn slot_index_and_record_errors() {
    assert_eq!(
        SlotIndex::decode(&[0; 17]).unwrap_err(),
        "invalid slot index data length: 17"
    );
    assert!(SlotIndex::decode(&[0; 16]).unwrap().offsets.is_empty());
    assert_eq!(
        HeaderRecord::decode_ssz(&[0; 63]).unwrap_err(),
        "header record too short: 63 < 64"
    );
    assert!(HeaderRecord::decode_ssz(&[0; 65]).is_ok());
}

#[test]
fn decompression() {
    let mut enc = FrameEncoder::new(Vec::new());
    enc.write_all(b"some data").unwrap();
    let compressed = enc.into_inner().unwrap();
    assert_eq!(decompress_entry(&compressed).unwrap(), b"some data");
    assert!(matches!(
        decompress_entry(&[1, 2, 3]),
        Err(Error::Io(e)) if e.kind == IoErrorKind::InvalidData
    ));
}

#[test]
fn outcome_of_decompression() {
    assert_eq!(payload_from(Ok(vec![1])).unwrap(), vec![1]);
    match payload_from(Err("bad frame".to_string())) {
        Err(e) => assert_eq!(e.to_string(), "io error: bad frame"),
        Ok(_) => panic!("expected an error"),
    }
}
