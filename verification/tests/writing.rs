//! Writing entries and building ERA files.

use std::io::Write;

use brandon::format::e2store::{E2StoreReader, Header};
use brandon::format::era::SlotIndex;
use brandon::format::types::{TYPE_COMPRESSED_BEACON_STATE, TYPE_SLOT_INDEX};
use brandon::format::Entry;
use brandon::verify::verify_era;
use brandon::write::{E2StoreWriter, EraBuilder};
use brandon::{EraBlockReader, EraRandomReader, EraReader, TypedEntry};
use snap::write::FrameEncoder;

fn compress(data: &[u8]) -> Vec<u8> {
    let mut enc = FrameEncoder::new(Vec::new());
    enc.write_all(data).unwrap();
    enc.into_inner().unwrap()
}

#[test]
fn writer_header_is_exactly_8_bytes() {
    let mut writer = E2StoreWriter::new(Vec::new());
    let entry = Entry::new([0x01, 0x00], vec![0xAA, 0xBB]);
    writer.write_entry(&entry).unwrap();
    let buf = writer.into_inner();

    assert_eq!(buf.len(), 10); // 8 header + 2 data
}

#[test]
fn writer_roundtrip_with_reader() {
    let mut writer = E2StoreWriter::new(Vec::new());

    let entries = vec![
        Entry::version(),
        Entry::new([0x01, 0x00], vec![1, 2, 3]),
        Entry::new([0x02, 0x00], vec![4, 5, 6, 7]),
    ];
    writer.write_all(&entries).unwrap();
    let buf = writer.into_inner();

    let reader = E2StoreReader::new(&buf);
    let read_back = reader.read_all().unwrap();

    assert_eq!(read_back.len(), 3);
    assert!(read_back[0].header.is_version());
    assert_eq!(read_back[1].data, vec![1, 2, 3]);
    assert_eq!(read_back[2].data, vec![4, 5, 6, 7]);
}

#[test]
fn writer_version_entry_is_valid() {
    let mut writer = E2StoreWriter::new(Vec::new());
    writer.write_entry(&Entry::version()).unwrap();
    let buf = writer.into_inner();

    assert_eq!(buf.len(), 8);
    let header = Header::decode(&buf).unwrap();
    assert!(header.is_version());
    assert_eq!(header.length, 0);
    assert_eq!(header.reserved, 0);
}

#[test]
fn writer_into_inner() {
    let writer = E2StoreWriter::new(Vec::<u8>::new());
    let _recovered: Vec<u8> = writer.into_inner();
}

#[test]
fn builder_empty_file() {
    let mut buf = Vec::new();
    EraBuilder::new().build(&mut buf).unwrap();

    let reader = E2StoreReader::new(&buf);
    let entries = reader.read_all().unwrap();
    assert_eq!(entries.len(), 2); // version + empty block index
    assert!(entries[0].header.is_version());
    assert_eq!(entries[1].header.typ, TYPE_SLOT_INDEX);
}

#[test]
fn builder_blocks_only() {
    let mut builder = EraBuilder::new();
    builder.add_block(0, compress(&[0xAA; 100]));
    builder.add_block(2, compress(&[0xBB; 200]));

    let mut buf = Vec::new();
    builder.build(&mut buf).unwrap();

    let mut reader = EraBlockReader::new(&buf);
    let b1 = reader.next_block().unwrap().unwrap();
    let b2 = reader.next_block().unwrap().unwrap();
    assert!(reader.next_block().unwrap().is_none());

    assert_eq!(b1.primary_data(), &[0xAA; 100]);
    assert_eq!(b2.primary_data(), &[0xBB; 200]);
}

#[test]
fn builder_with_state() {
    let mut builder = EraBuilder::new();
    builder.add_block(100, compress(&[0x11; 50]));
    builder.set_state(8192, compress(&[0x22; 300]));

    let mut buf = Vec::new();
    builder.build(&mut buf).unwrap();

    let entries = EraReader::new(&buf).read_all().unwrap();

    assert!(
        entries
            .iter()
            .any(|e| matches!(e, TypedEntry::BeaconBlock { .. }))
    );
    assert!(
        entries
            .iter()
            .any(|e| matches!(e, TypedEntry::BeaconState { .. }))
    );
    assert!(
        entries
            .iter()
            .any(|e| matches!(e, TypedEntry::BlockIndex { .. }))
    );
    assert!(
        entries
            .iter()
            .any(|e| matches!(e, TypedEntry::StateIndex { .. }))
    );
}

#[test]
fn builder_offsets_are_correct() {
    // Blocks at slots 0 and 2 (slot 1 skipped), state at slot 3
    let mut builder = EraBuilder::new();
    builder.add_block(0, compress(&[0x00; 64]));
    builder.add_block(2, compress(&[0x02; 64]));
    builder.set_state(3, compress(&[0xFF; 128]));

    let mut buf = Vec::new();
    builder.build(&mut buf).unwrap();

    // Random reader validates offsets by seeking to them
    let mut rr = EraRandomReader::new(&buf).unwrap();
    assert_eq!(rr.starting_slot(), Some(0));
    assert_eq!(rr.slot_count(), Some(3)); // slots 0, 1, 2

    let b = rr.read_block_at_slot(0).unwrap().unwrap();
    assert_eq!(b.primary_data(), &[0x00; 64]);

    assert!(rr.read_block_at_slot(1).unwrap().is_none()); // skipped

    let b = rr.read_block_at_slot(2).unwrap().unwrap();
    assert_eq!(b.primary_data(), &[0x02; 64]);

    let state = rr.read_state().unwrap().unwrap();
    assert_eq!(state, &[0xFF; 128]);
}

#[test]
fn builder_block_index_starting_slot_is_minimum() {
    let mut builder = EraBuilder::new();
    builder.add_block(1000, compress(&[0x01]));
    builder.add_block(1005, compress(&[0x02]));

    let mut buf = Vec::new();
    builder.build(&mut buf).unwrap();

    let rr = EraRandomReader::new(&buf).unwrap();
    assert_eq!(rr.starting_slot(), Some(1000));
    assert_eq!(rr.slot_count(), Some(6)); // 1000..=1005
}

#[test]
fn builder_state_index_has_correct_slot() {
    let mut builder = EraBuilder::new();
    builder.add_block(0, compress(&[0x01]));
    builder.set_state(99999, compress(&[0x02]));

    let mut buf = Vec::new();
    builder.build(&mut buf).unwrap();

    let entries = E2StoreReader::new(&buf).read_all().unwrap();

    let last = entries.last().unwrap();
    assert_eq!(last.header.typ, TYPE_SLOT_INDEX);

    let idx = SlotIndex::decode(&last.data).unwrap();
    assert_eq!(idx.starting_slot, 99999);
    assert_eq!(idx.offsets.len(), 1);
    assert_ne!(idx.offsets[0], 0);
}

#[test]
fn builder_state_index_offset_points_to_state_entry() {
    let mut builder = EraBuilder::new();
    builder.add_block(0, compress(&[0x01; 32]));
    builder.set_state(1, compress(&[0x02; 32]));

    let mut buf = Vec::new();
    builder.build(&mut buf).unwrap();

    // Find the state index and verify its offset resolves correctly
    let entries = E2StoreReader::new(&buf).read_all().unwrap();

    let state_idx_entry = entries
        .iter()
        .find(|e| e.header.typ == TYPE_SLOT_INDEX)
        .unwrap();
    let state_idx = SlotIndex::decode(&state_idx_entry.data).unwrap();

    // Find the state entry's absolute position
    let state_abs: u64 = entries
        .iter()
        .enumerate()
        .find(|(_, e)| e.header.typ == TYPE_COMPRESSED_BEACON_STATE)
        .map(|(i, _)| {
            entries[..i]
                .iter()
                .map(|e| 8u64 + e.data.len() as u64)
                .sum()
        })
        .unwrap();

    // Find the state index entry's absolute position
    let state_idx_abs: u64 = entries
        .iter()
        .enumerate()
        .rfind(|(_, e)| e.header.typ == TYPE_SLOT_INDEX)
        .map(|(i, _)| {
            entries[..i]
                .iter()
                .map(|e| 8u64 + e.data.len() as u64)
                .sum()
        })
        .unwrap();

    let resolved = state_idx_abs as i64 + state_idx.offsets[0];
    assert_eq!(resolved as u64, state_abs);
}

#[test]
fn builder_passes_verify() {
    let mut builder = EraBuilder::new();
    builder.add_block(0, compress(&[0xAA; 50]));
    builder.add_block(1, compress(&[0xBB; 50]));
    builder.set_state(2, compress(&[0xCC; 100]));

    let mut buf = Vec::new();
    builder.build(&mut buf).unwrap();

    let result = verify_era(&buf[..]);
    if !result.valid {
        panic!("verification failed:\n{}", result.errors.join("\n"));
    }
    assert_eq!(result.block_count, 2);
    assert!(result.state_present);
}

#[test]
fn builder_default_equals_new() {
    let mut buf_a = Vec::new();
    let mut buf_b = Vec::new();
    EraBuilder::new().build(&mut buf_a).unwrap();
    EraBuilder::default().build(&mut buf_b).unwrap();
    assert_eq!(buf_a, buf_b);
}

#[test]
fn builder_knows_its_slots() {
    let mut builder = EraBuilder::new();
    assert!(!builder.has_slot(7));
    builder.add_block(7, compress(b"a"));
    assert!(builder.has_slot(7));
    assert!(!builder.has_slot(8));
    assert_eq!(builder.block_count(), 1);
    assert!(builder.can_build());
}

#[test]
fn builder_refuses_an_index_that_does_not_fit() {
    let mut builder = EraBuilder::new();
    builder.add_block(0, vec![]);
    builder.add_block(1 << 29, vec![]);
    assert!(!builder.can_build());
    let mut builder = EraBuilder::new();
    builder.add_block(5, vec![]);
    builder.add_block(u64::MAX, vec![]);
    assert!(!builder.can_build());
    assert!(EraBuilder::new().can_build());
}

#[test]
fn builder_keeps_the_order_of_the_blocks() {
    let mut builder = EraBuilder::new();
    builder.add_block(9, compress(b"nine"));
    builder.add_block(3, compress(b"three"));
    let mut out = vec![0xaa];
    builder.build(&mut out).unwrap();
    // What is there already stays
    assert_eq!(out[0], 0xaa);
    let data = &out[1..];
    let mut reader = EraBlockReader::new(data);
    let first = reader.next_block().unwrap().unwrap();
    assert_eq!(first.primary_data(), b"nine");
    let second = reader.next_block().unwrap().unwrap();
    assert_eq!(second.primary_data(), b"three");
    assert!(reader.next_block().unwrap().is_none());
}

#[test]
fn built_entries_in_order() {
    let mut builder = EraBuilder::new();
    builder.add_block(3, compress(b"a"));
    builder.add_block(4, compress(b"b"));
    builder.set_state(8, compress(b"s"));
    let mut out = Vec::new();
    builder.build(&mut out).unwrap();
    let entries = EraReader::new(&out).read_all().unwrap();
    let names: Vec<&str> = entries.iter().map(|e| e.type_label()).collect();
    assert_eq!(
        names,
        vec![
            "BeaconBlock",
            "BeaconBlock",
            "BeaconState",
            "BlockIndex",
            "StateIndex",
        ]
    );
}
