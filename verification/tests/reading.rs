//! Typed entries, block assembly and random access.

use std::io::Write;

use brandon::error::{Error, IoError, IoErrorKind};
use brandon::format::era::{
    SlotIndex, TYPE_BLOCK_INDEX, TYPE_COMPRESSED_BEACON_STATE,
    TYPE_COMPRESSED_SIGNED_BEACON_BLOCK, TYPE_SLOT_INDEX, TYPE_STATE_INDEX,
};
use brandon::format::era1::{
    TYPE_BLOCK_BODY, TYPE_COMPRESSED_HEADER, TYPE_RECEIPTS, TYPE_TOTAL_DIFFICULTY, U256,
};
use brandon::format::{E2StoreReader, Entry, Header};
use brandon::read::random::{assemble_era1, block_from_typed};
use brandon::read::typed::{decode_entry, detect_format, typed_entry};
use brandon::read::Era1Assembly;
use brandon::write::{E2StoreWriter, EraBuilder};
use brandon::{
    Block, Era1Block, EraBlock, EraBlockReader, EraFormat, EraRandomReader, EraReader,
    SlotLookupError, TypedEntry,
};
use snap::write::FrameEncoder;

fn build_test_era1() -> Vec<u8> {
    let mut buf = Vec::new();

    let version = Entry::version();
    buf.extend_from_slice(&version.header.encode());

    // Compressed header (compress an empty-ish RLP block header)
    let fake_rlp_header = vec![0xf8, 0x40];
    let compressed_header = {
        let mut enc = FrameEncoder::new(Vec::new());
        enc.write_all(&fake_rlp_header).unwrap();
        enc.into_inner().unwrap()
    };
    let header_entry = Entry::new(TYPE_COMPRESSED_HEADER, compressed_header);
    buf.extend_from_slice(&header_entry.header.encode());
    buf.extend_from_slice(&header_entry.data);

    // Block body
    let body_entry = Entry::new(TYPE_BLOCK_BODY, vec![0x01, 0x02, 0x03]);
    buf.extend_from_slice(&body_entry.header.encode());
    buf.extend_from_slice(&body_entry.data);

    let receipts_entry = Entry::new(TYPE_RECEIPTS, vec![0x04, 0x05]);
    buf.extend_from_slice(&receipts_entry.header.encode());
    buf.extend_from_slice(&receipts_entry.data);

    let mut td_bytes = [0u8; 32];
    td_bytes[31] = 0x0f;
    let td_entry = Entry::new(TYPE_TOTAL_DIFFICULTY, td_bytes.to_vec());
    buf.extend_from_slice(&td_entry.header.encode());
    buf.extend_from_slice(&td_entry.data);

    // Block index - one slot, offset points back to the header entry
    // Index starts at byte 8 (after version). Header entry is at offset 0 relative to
    // index.
    let block_index = SlotIndex::new(0, vec![8i64]);
    let idx_entry = Entry::new(TYPE_BLOCK_INDEX, block_index.encode());
    let idx_offset = buf.len() as i64;
    buf.extend_from_slice(&idx_entry.header.encode());
    buf.extend_from_slice(&idx_entry.data);

    // Fix the offset: it should be relative to the index position
    // The header entry is at byte 8, the index is at idx_offset
    // So relative offset = 8 - idx_offset (negative)
    let correct_offset = (8i64 - idx_offset) as i64;
    let fixed_index = SlotIndex::new(0, vec![correct_offset]);
    // Rebuild with correct offset
    buf.truncate(idx_offset as usize);
    let idx_entry = Entry::new(TYPE_BLOCK_INDEX, fixed_index.encode());
    buf.extend_from_slice(&idx_entry.header.encode());
    buf.extend_from_slice(&idx_entry.data);

    buf
}

#[test]
fn era_reader_detects_era1_format() {
    let data = build_test_era1();
    let mut reader = EraReader::new(&data);
    assert!(reader.format().is_none());

    let first = reader.next_entry().unwrap().unwrap();
    assert_eq!(reader.format(), Some(EraFormat::Era1));
    assert!(matches!(first, TypedEntry::Header { .. }));
}

#[test]
fn era_reader_yields_all_typed_entries() {
    let data = build_test_era1();
    let mut reader = EraReader::new(&data);
    let entries = reader.read_all().unwrap();

    assert_eq!(entries.len(), 5); // header + body + receipts + td + index
    assert!(matches!(&entries[0], TypedEntry::Header { .. }));
    assert!(matches!(&entries[1], TypedEntry::BlockBody { .. }));
    assert!(matches!(&entries[2], TypedEntry::Receipts { .. }));
    assert!(matches!(&entries[3], TypedEntry::TotalDifficulty { .. }));
    assert!(matches!(&entries[4], TypedEntry::BlockIndex { .. }));
}

#[test]
fn era_reader_rejects_missing_version() {
    // Just a random entry, no version
    let buf = [0x01, 0x00, 0x02, 0x00, 0x00, 0x00, 0x00, 0x00, 0xAB, 0xCD];
    let mut reader = EraReader::new(&buf[..]);
    let err = reader.next_entry().unwrap_err();
    assert!(err.to_string().contains("missing version"));
}

#[test]
fn era_reader_handles_empty_file() {
    let mut reader = EraReader::new(&[]);
    let err = reader.next_entry().unwrap_err();
    assert!(err.to_string().contains("missing version"));
}

#[test]
fn era_block_reader_assembles_era1_block() {
    let data = build_test_era1();
    let mut reader = EraBlockReader::new(&data);

    let block = reader.next_block().unwrap().unwrap();
    assert!(matches!(block, Block::Era1(_)));

    if let Block::Era1(b) = block {
        assert_eq!(b.header.len(), 2); // our fake RLP header
        assert_eq!(b.body, vec![0x01, 0x02, 0x03]);
        assert_eq!(b.receipts, vec![0x04, 0x05]);
        assert_eq!(b.total_difficulty.0[31], 0x0f);
    }

    assert!(reader.next_block().unwrap().is_none());
}

#[test]
fn era_random_reader_finds_index() {
    let data = build_test_era1();
    let reader = EraRandomReader::new(&data).unwrap();

    assert_eq!(reader.format(), Some(EraFormat::Era1));
    assert_eq!(reader.slot_count(), Some(1));
    assert_eq!(reader.starting_slot(), Some(0));
}

#[test]
fn era_random_reader_reads_slot_zero() {
    let data = build_test_era1();
    let mut reader = EraRandomReader::new(&data).unwrap();

    let block = reader.read_block_at_slot(0).unwrap().unwrap();
    assert_eq!(block.primary_data().len(), 2);
}

#[test]
fn era_random_reader_empty_slot() {
    // Build an index with a 0 offset for slot 1
    let data = build_test_era1();

    // We need to rebuild with a 2-slot index where slot 1 is empty
    // For simplicity, just test the slot_to_offset logic directly
    let reader = EraRandomReader::new(&data).unwrap();
    let err = reader.slot_to_offset(1).unwrap_err();
    assert!(matches!(err, SlotLookupError::OutOfRange { .. }));
}

#[test]
fn slot_lookup_error_display() {
    let e = SlotLookupError::EmptySlot;
    assert!(!e.to_string().is_empty());

    let e = SlotLookupError::OutOfRange {
        slot: 100,
        start: 0,
        end: 50,
    };
    assert!(e.to_string().contains("100"));

    let e = SlotLookupError::IndexNotFound;
    assert!(e.to_string().contains("not found"));
}

#[test]
fn typed_entry_type_name() {
    let e = TypedEntry::Header { data: vec![] };
    assert_eq!(e.type_label(), "Header");

    let e = TypedEntry::BeaconBlock { data: vec![] };
    assert_eq!(e.type_label(), "BeaconBlock");

    let e = TypedEntry::Unknown {
        typ: [0xFF, 0xFF],
        data: vec![],
    };
    assert_eq!(e.type_label(), "Unknown");
}

#[test]
fn typed_entry_data_len() {
    let e = TypedEntry::TotalDifficulty {
        value: U256::zero(),
    };
    assert_eq!(e.data_len(), 32);

    let e = TypedEntry::BlockBody { data: vec![0; 100] };
    assert_eq!(e.data_len(), 100);
}

#[test]
fn block_total_size() {
    let era_block = Block::Era(EraBlock {
        block: vec![0; 500],
    });
    assert_eq!(era_block.total_size(), 500);

    let era1_block = Block::Era1(Era1Block {
        header: vec![0; 100],
        body: vec![0; 200],
        receipts: vec![0; 50],
        total_difficulty: U256::zero(),
    });
    assert_eq!(era1_block.total_size(), 382); // 100 + 200 + 50 + 32
}

#[test]
fn block_primary_data() {
    let era = Block::Era(EraBlock {
        block: vec![1, 2, 3],
    });
    assert_eq!(era.primary_data(), &[1, 2, 3]);

    let era1 = Block::Era1(Era1Block {
        header: vec![4, 5, 6],
        body: vec![7, 8],
        receipts: vec![],
        total_difficulty: U256::zero(),
    });
    assert_eq!(era1.primary_data(), &[4, 5, 6]);
}

#[test]
fn era_format_display() {
    assert_eq!(EraFormat::Era.to_string(), "ERA");
    assert_eq!(EraFormat::Era1.to_string(), "ERA1");
}

#[test]
fn unknown_entry_preserved() {
    let mut buf = Vec::new();
    // Version
    buf.extend_from_slice(&[0x65, 0x32, 0x00, 0x00, 0x00, 0x00, 0x00, 0x00]);
    // Unknown type 0xFFEE, 3 bytes of data
    buf.extend_from_slice(&[0xFF, 0xEE, 0x03, 0x00, 0x00, 0x00, 0x00, 0x00]);
    buf.extend_from_slice(&[0xAA, 0xBB, 0xCC]);

    let mut reader = EraReader::new(&buf);
    let entry = reader.next_entry().unwrap().unwrap();
    assert!(matches!(entry, TypedEntry::Unknown { .. }));
    if let TypedEntry::Unknown { typ, data } = entry {
        assert_eq!(typ, [0xFF, 0xEE]);
        assert_eq!(data, vec![0xAA, 0xBB, 0xCC]);
    }
}

#[test]
fn total_difficulty_rejects_wrong_size() {
    let mut buf = Vec::new();
    // Version
    buf.extend_from_slice(&[0x65, 0x32, 0x00, 0x00, 0x00, 0x00, 0x00, 0x00]);
    // TotalDifficulty with 16 bytes instead of 32
    buf.extend_from_slice(&[0x06, 0x00, 0x10, 0x00, 0x00, 0x00, 0x00, 0x00]);
    buf.extend_from_slice(&[0u8; 16]);

    let mut reader = EraReader::new(&buf);
    let err = reader.next_entry().unwrap_err();
    assert!(err.to_string().contains("32 bytes"));
}

#[test]
fn block_accumulator_rejects_wrong_size() {
    let mut buf = Vec::new();
    // Version
    buf.extend_from_slice(&[0x65, 0x32, 0x00, 0x00, 0x00, 0x00, 0x00, 0x00]);
    // BlockAccumulator with 16 bytes instead of 32
    buf.extend_from_slice(&[0x07, 0x00, 0x10, 0x00, 0x00, 0x00, 0x00, 0x00]);
    buf.extend_from_slice(&[0u8; 16]);

    let mut reader = EraReader::new(&buf);
    let err = reader.next_entry().unwrap_err();
    assert!(err.to_string().contains("32 bytes"));
}

fn compress(data: &[u8]) -> Vec<u8> {
    let mut enc = FrameEncoder::new(Vec::new());
    enc.write_all(data).unwrap();
    enc.into_inner().unwrap()
}

fn file_of(entries: &[Entry]) -> Vec<u8> {
    let mut w = E2StoreWriter::new(Vec::new());
    w.write_entry(&Entry::version()).unwrap();
    w.write_all(entries).unwrap();
    w.into_inner()
}

fn message<T>(r: Result<T, Error>) -> String {
    match r {
        Ok(_) => panic!("expected an error"),
        Err(e) => e.to_string(),
    }
}

#[test]
fn formats_by_entry_type() {
    assert_eq!(
        detect_format(&TYPE_COMPRESSED_SIGNED_BEACON_BLOCK),
        EraFormat::Era
    );
    assert_eq!(detect_format(&TYPE_COMPRESSED_BEACON_STATE), EraFormat::Era);
    assert_eq!(detect_format(&TYPE_COMPRESSED_HEADER), EraFormat::Era1);
    assert_eq!(detect_format(&TYPE_TOTAL_DIFFICULTY), EraFormat::Era1);
}

#[test]
fn given_payloads_become_typed_entries() {
    let raw = Entry::new(TYPE_COMPRESSED_HEADER, vec![1]);
    match typed_entry(raw, Ok(vec![2, 3])) {
        Ok(TypedEntry::Header { data }) => assert_eq!(data, vec![2, 3]),
        _ => panic!("expected a header"),
    }
    let raw = Entry::new(TYPE_COMPRESSED_BEACON_STATE, vec![1]);
    let failure = Error::Io(IoError::new(IoErrorKind::InvalidData, "bad".to_string()));
    assert_eq!(message(typed_entry(raw, Err(failure))), "io error: bad");
    // A payload has no part in an entry that is not compressed
    let raw = Entry::new(TYPE_BLOCK_BODY, vec![1]);
    match typed_entry(raw, Ok(vec![2])) {
        Ok(TypedEntry::BlockBody { data }) => assert_eq!(data, vec![1]),
        _ => panic!("expected a body"),
    }
}

#[test]
fn compressed_entries_are_decompressed() {
    match decode_entry(Entry::new(TYPE_COMPRESSED_BEACON_STATE, compress(b"state"))) {
        Ok(TypedEntry::BeaconState { data }) => assert_eq!(data, b"state"),
        _ => panic!("expected a state"),
    }
    assert!(matches!(
        decode_entry(Entry::new(TYPE_COMPRESSED_BEACON_STATE, vec![1, 2])),
        Err(Error::Io(_))
    ));
}

#[test]
fn bad_entries_are_described() {
    assert_eq!(
        message(decode_entry(Entry::new(TYPE_BLOCK_INDEX, vec![0; 9]))),
        "e2store parse error: invalid era file: bad block index: invalid slot index data length: 9"
    );
    assert_eq!(
        message(decode_entry(Entry::new(TYPE_TOTAL_DIFFICULTY, vec![0; 3]))),
        "e2store parse error: invalid era1 file: total difficulty must be 32 bytes, got 3"
    );
}

#[test]
fn first_index_is_of_blocks_and_the_next_of_states() {
    let idx = SlotIndex::new(1, vec![0]).encode();
    let data = file_of(&[
        Entry::new(TYPE_SLOT_INDEX, idx.clone()),
        Entry::new(TYPE_SLOT_INDEX, idx.clone()),
        Entry::new(TYPE_BLOCK_INDEX, idx.clone()),
        Entry::new(TYPE_STATE_INDEX, idx),
    ]);
    let entries = EraReader::new(&data).read_all().unwrap();
    let names: Vec<&str> = entries.iter().map(|e| e.type_label()).collect();
    assert_eq!(
        names,
        vec!["BlockIndex", "StateIndex", "BlockIndex", "StateIndex"]
    );
}

#[test]
fn era1_block_is_assembled_from_its_parts() {
    let mut a = Era1Assembly::new();
    assert!(a.flush_era1_block().is_none());
    assert!(a
        .accept(TypedEntry::Header { data: vec![1] })
        .is_none());
    assert!(a.accept(TypedEntry::BlockBody { data: vec![2] }).is_none());
    assert!(a.accept(TypedEntry::Receipts { data: vec![3] }).is_none());
    let td = U256([4; 32]);
    assert!(a.accept(TypedEntry::TotalDifficulty { value: td }).is_none());
    match a.accept(TypedEntry::Header { data: vec![5] }) {
        Some(Block::Era1(b)) => {
            assert_eq!(b.header, vec![1]);
            assert_eq!(b.body, vec![2]);
            assert_eq!(b.receipts, vec![3]);
            assert_eq!(b.total_difficulty, td);
        }
        _ => panic!("expected a block"),
    }
    match a.flush_era1_block() {
        Some(Block::Era1(b)) => {
            assert_eq!(b.header, vec![5]);
            assert!(b.body.is_empty());
            assert_eq!(b.total_difficulty, U256::zero());
        }
        _ => panic!("expected a block"),
    }
    match a.accept(TypedEntry::BeaconBlock { data: vec![6] }) {
        Some(Block::Era(b)) => assert_eq!(b.block, vec![6]),
        _ => panic!("expected a block"),
    }
}

#[test]
fn block_from_a_typed_entry() {
    match block_from_typed(1, TypedEntry::BeaconBlock { data: vec![7] }) {
        Ok(Some(Block::Era(b))) => assert_eq!(b.block, vec![7]),
        _ => panic!("expected a block"),
    }
    match block_from_typed(1, TypedEntry::Header { data: vec![8] }) {
        Ok(Some(Block::Era1(b))) => {
            assert_eq!(b.header, vec![8]);
            assert!(b.body.is_empty() && b.receipts.is_empty());
        }
        _ => panic!("expected a block"),
    }
    assert_eq!(
        message(block_from_typed(12, TypedEntry::BlockBody { data: vec![] })),
        "e2store parse error: invalid era file: expected block entry at slot 12, got BlockBody (0400)"
    );
}

#[test]
fn era1_block_is_completed() {
    let mut rest = E2StoreWriter::new(Vec::new());
    rest.write_entry(&Entry::new(TYPE_BLOCK_BODY, vec![1])).unwrap();
    rest.write_entry(&Entry::new(TYPE_TOTAL_DIFFICULTY, vec![2; 32]))
        .unwrap();
    rest.write_entry(&Entry::new(TYPE_TOTAL_DIFFICULTY, vec![3; 31]))
        .unwrap();
    rest.write_entry(&Entry::new(TYPE_COMPRESSED_HEADER, vec![]))
        .unwrap();
    rest.write_entry(&Entry::new(TYPE_RECEIPTS, vec![4])).unwrap();
    let b = assemble_era1(vec![9], &rest.into_inner()).unwrap();
    assert_eq!(b.header, vec![9]);
    assert_eq!(b.body, vec![1]);
    assert!(b.receipts.is_empty());
    assert_eq!(b.total_difficulty, U256([2; 32]));
    assert!(assemble_era1(vec![9], &[1, 2]).is_ok());
    assert!(matches!(
        assemble_era1(vec![9], &Header::new(TYPE_RECEIPTS, 1).encode()),
        Err(Error::Io(_))
    ));
}

#[test]
fn full_era1_block_by_slot() {
    let data = build_test_era1();
    let mut reader = EraRandomReader::new(&data).unwrap();
    let b = reader.read_full_era1_block_at_slot(0).unwrap().unwrap();
    assert_eq!(b.header, vec![0xf8, 0x40]);
    assert_eq!(b.body, vec![1, 2, 3]);
    assert_eq!(b.receipts, vec![4, 5]);
    assert_eq!(b.total_difficulty.0[31], 0x0f);
    assert_eq!(reader.into_inner(), &data[..]);
}

#[test]
fn built_file_by_slot() {
    let mut builder = EraBuilder::new();
    builder.add_block(10, compress(b"ten"));
    builder.add_block(12, compress(b"twelve"));
    builder.set_state(20, compress(b"state"));
    let mut data = Vec::new();
    builder.build(&mut data).unwrap();

    let mut reader = EraRandomReader::new(&data).unwrap();
    assert_eq!(reader.starting_slot(), Some(10));
    assert_eq!(reader.slot_count(), Some(3));
    assert_eq!(reader.slot_to_offset(10), Ok(8));
    match reader.read_block_at_slot(12).unwrap() {
        Some(Block::Era(b)) => assert_eq!(b.block, b"twelve"),
        _ => panic!("expected a block"),
    }
    assert!(reader.read_block_at_slot(11).unwrap().is_none());
    assert!(reader.read_full_era1_block_at_slot(11).unwrap().is_none());
    assert_eq!(reader.read_state().unwrap().unwrap(), b"state");
    assert_eq!(
        message(reader.read_block_at_slot(13)),
        "e2store parse error: invalid era file: slot 13 outside index range [10, 13]"
    );
    assert_eq!(
        message(reader.read_full_era1_block_at_slot(10)),
        "e2store parse error: invalid era file: expected header entry at slot 10, got 0100"
    );
}

#[test]
fn file_without_an_index() {
    let data = file_of(&[Entry::new(TYPE_COMPRESSED_SIGNED_BEACON_BLOCK, compress(b"a"))]);
    let mut reader = EraRandomReader::new(&data).unwrap();
    assert_eq!(reader.format(), Some(EraFormat::Era));
    assert!(reader.block_index().is_none());
    assert_eq!(reader.starting_slot(), None);
    assert_eq!(reader.slot_count(), None);
    assert_eq!(reader.slot_to_offset(1), Err(SlotLookupError::IndexNotFound));
    assert_eq!(
        message(reader.read_block_at_slot(1)),
        "e2store parse error: invalid era file: block index not found in file"
    );
    assert!(reader.read_state().unwrap().is_none());
}

#[test]
fn index_that_leads_past_the_end() {
    let data = file_of(&[Entry::new(
        TYPE_SLOT_INDEX,
        SlotIndex::new(0, vec![1000]).encode(),
    )]);
    let mut reader = EraRandomReader::new(&data).unwrap();
    assert_eq!(
        message(reader.read_block_at_slot(0)),
        "e2store parse error: invalid era file: unexpected EOF at indexed position"
    );
}

#[test]
fn offsets_wrap_around() {
    let data = file_of(&[Entry::new(
        TYPE_SLOT_INDEX,
        SlotIndex::new(0, vec![-9]).encode(),
    )]);
    let reader = EraRandomReader::new(&data).unwrap();
    assert_eq!(reader.slot_to_offset(0), Ok(u64::MAX));
}

#[test]
fn blocks_stream_until_a_failure() {
    let data = file_of(&[
        Entry::new(TYPE_COMPRESSED_SIGNED_BEACON_BLOCK, compress(b"a")),
        Entry::new(TYPE_COMPRESSED_SIGNED_BEACON_BLOCK, vec![1]),
    ]);
    let mut reader = EraBlockReader::new(&data);
    assert!(reader.next_block().unwrap().is_some());
    assert_eq!(reader.format(), Some(EraFormat::Era));
    assert!(reader.next_block().is_err());
}

#[test]
fn pending_block_is_flushed_whatever_the_format() {
    // The index makes it look like an ERA file
    let data = file_of(&[
        Entry::new(TYPE_BLOCK_INDEX, SlotIndex::new(0, vec![]).encode()),
        Entry::new(TYPE_COMPRESSED_HEADER, compress(b"header")),
    ]);
    let mut reader = EraBlockReader::new(&data);
    match reader.next_block().unwrap() {
        Some(Block::Era1(b)) => assert_eq!(b.header, b"header"),
        _ => panic!("expected a block"),
    }
    assert_eq!(reader.format(), Some(EraFormat::Era));
    assert!(reader.next_block().unwrap().is_none());
    assert!(reader.next_block().unwrap().is_none());
}

#[test]
fn parts_in_any_order_and_number() {
    let data = file_of(&[
        Entry::new(TYPE_BLOCK_BODY, vec![9]),
        Entry::new(TYPE_COMPRESSED_HEADER, compress(b"one")),
        Entry::new(TYPE_TOTAL_DIFFICULTY, vec![1; 32]),
        Entry::new(TYPE_BLOCK_BODY, vec![1]),
        Entry::new([0xff, 0xff], vec![0]),
        Entry::new(TYPE_BLOCK_BODY, vec![2]),
        Entry::new(TYPE_COMPRESSED_HEADER, compress(b"two")),
        Entry::new(TYPE_RECEIPTS, vec![3]),
    ]);
    let mut reader = EraBlockReader::new(&data);
    match reader.next_block().unwrap() {
        Some(Block::Era1(b)) => {
            assert_eq!(b.header, b"one");
            assert_eq!(b.body, vec![2]);
            assert!(b.receipts.is_empty());
            assert_eq!(b.total_difficulty, U256([1; 32]));
        }
        _ => panic!("expected a block"),
    }
    match reader.next_block().unwrap() {
        Some(Block::Era1(b)) => {
            assert_eq!(b.header, b"two");
            assert!(b.body.is_empty());
            assert_eq!(b.receipts, vec![3]);
            assert_eq!(b.total_difficulty, U256::zero());
        }
        _ => panic!("expected a block"),
    }
    assert!(reader.next_block().unwrap().is_none());
}

#[test]
fn typed_entries_are_the_decoded_raw_entries() {
    let data = build_test_era1();
    let raw = E2StoreReader::new(&data).read_all().unwrap();
    let typed = EraReader::new(&data).read_all().unwrap();
    assert_eq!(typed.len(), raw.len() - 1);
    for (e, t) in raw.into_iter().skip(1).zip(typed.iter()) {
        let d = decode_entry(e).unwrap();
        assert_eq!(d.type_label(), t.type_label());
        assert_eq!(d.data_len(), t.data_len());
    }
}

#[test]
fn block_index_is_preferred_to_a_slot_index() {
    let index = |typ: [u8; 2], slot: u64| Entry::new(typ, SlotIndex::new(slot, vec![1]).encode());
    let start = |entries: &[Entry]| {
        let data = file_of(entries);
        EraRandomReader::new(&data).unwrap().starting_slot()
    };
    assert_eq!(
        start(&[index(TYPE_SLOT_INDEX, 100), index(TYPE_BLOCK_INDEX, 5)]),
        Some(5)
    );
    assert_eq!(
        start(&[index(TYPE_BLOCK_INDEX, 5), index(TYPE_SLOT_INDEX, 100)]),
        Some(5)
    );
    assert_eq!(
        start(&[index(TYPE_BLOCK_INDEX, 5), index(TYPE_BLOCK_INDEX, 6)]),
        Some(5)
    );
    assert_eq!(
        start(&[index(TYPE_SLOT_INDEX, 100), index(TYPE_SLOT_INDEX, 200)]),
        Some(100)
    );
    // A slot index that does not count need not decode
    assert_eq!(
        start(&[Entry::new(TYPE_SLOT_INDEX, vec![1]), index(TYPE_BLOCK_INDEX, 5)]),
        Some(5)
    );
    assert_eq!(start(&[index(TYPE_STATE_INDEX, 7)]), None);
}

#[test]
fn opening_reads_on_after_a_slot_index() {
    let mut data = file_of(&[Entry::new(
        TYPE_SLOT_INDEX,
        SlotIndex::new(0, vec![]).encode(),
    )]);
    assert!(EraRandomReader::new(&data).is_ok());
    let mut bad = Header::new([1, 0], 0).encode();
    bad[6] = 1;
    data.extend_from_slice(&bad);
    assert!(matches!(EraRandomReader::new(&data), Err(Error::Io(_))));
}
