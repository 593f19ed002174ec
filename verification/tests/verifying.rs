//! Verification of archive files.

use std::io::Write;

use brandon::format::e2store::E2StoreReader;
use brandon::format::era::{
    SlotIndex, TYPE_COMPRESSED_BEACON_STATE, TYPE_COMPRESSED_SIGNED_BEACON_BLOCK, TYPE_SLOT_INDEX,
};
use brandon::format::era1::{
    TYPE_BLOCK_ACCUMULATOR, TYPE_BLOCK_BODY, TYPE_COMPRESSED_HEADER, TYPE_RECEIPTS,
    TYPE_TOTAL_DIFFICULTY,
};
use brandon::format::Entry;
use brandon::verify::{verify_decoded, verify_era};
use brandon::write::EraBuilder;
use snap::write::FrameEncoder;

fn compress(data: &[u8]) -> Vec<u8> {
    let mut enc = FrameEncoder::new(Vec::new());
    enc.write_all(data).unwrap();
    enc.into_inner().unwrap()
}

fn make_era1_header_entry(data: &[u8]) -> Vec<u8> {
    let e = Entry::new(TYPE_COMPRESSED_HEADER, compress(data));
    let mut buf = Vec::new();
    buf.extend_from_slice(&e.header.encode());
    buf.extend_from_slice(&e.data);
    buf
}

fn make_body_entry() -> Vec<u8> {
    let e = Entry::new(TYPE_BLOCK_BODY, vec![0x01]);
    let mut buf = Vec::new();
    buf.extend_from_slice(&e.header.encode());
    buf.extend_from_slice(&e.data);
    buf
}

fn make_td_entry(slot: u8) -> Vec<u8> {
    let mut td = [0u8; 32];
    td[31] = slot;
    let e = Entry::new(TYPE_TOTAL_DIFFICULTY, td.to_vec());
    let mut buf = Vec::new();
    buf.extend_from_slice(&e.header.encode());
    buf.extend_from_slice(&e.data);
    buf
}

fn make_receipts_entry() -> Vec<u8> {
    let e = Entry::new(TYPE_RECEIPTS, vec![0x04, 0x05]);
    let mut buf = Vec::new();
    buf.extend_from_slice(&e.header.encode());
    buf.extend_from_slice(&e.data);
    buf
}

fn make_slot_index(offsets: Vec<i64>) -> Vec<u8> {
    let idx = SlotIndex::new(0, offsets);
    let e = Entry::new(TYPE_SLOT_INDEX, idx.encode());
    let mut buf = Vec::new();
    buf.extend_from_slice(&e.header.encode());
    buf.extend_from_slice(&e.data);
    buf
}

#[test]
fn empty_file() {
    let r = verify_era(&[][..]);
    assert!(!r.valid);
    assert!(r.errors.iter().any(|e| e.contains("empty")));
}

#[test]
fn missing_version() {
    let buf = [0x01, 0x00, 0x00, 0x00, 0x00, 0x00, 0x00, 0x00];
    let r = verify_era(&buf[..]);
    assert!(!r.valid);
    assert!(r.errors.iter().any(|e| e.contains("version")));
}

#[test]
fn version_only() {
    let buf = [0x65, 0x32, 0x00, 0x00, 0x00, 0x00, 0x00, 0x00];
    let r = verify_era(&buf[..]);
    assert!(!r.valid);
    assert!(r.errors.iter().any(|e| e.contains("block index")));
}

#[test]
fn builder_two_blocks_and_state() {
    let mut b = EraBuilder::new();
    b.add_block(0, compress(&[0xAA; 50]));
    b.add_block(1, compress(&[0xBB; 50]));
    b.set_state(2, compress(&[0xCC; 100]));

    let mut buf = Vec::new();
    b.build(&mut buf).unwrap();

    let r = verify_era(&buf[..]);
    if !r.valid {
        panic!("verification failed:\n{}", r.errors.join("\n"));
    }
    assert_eq!(r.block_count, 2);
    assert!(r.state_present);
    assert_eq!(r.format.as_deref(), Some("ERA"));
    assert!(r.errors.is_empty());
    assert!(r.warnings.is_empty());
}

#[test]
fn builder_empty() {
    let mut buf = Vec::new();
    EraBuilder::new().build(&mut buf).unwrap();

    let r = verify_era(&buf[..]);
    assert!(r.valid);
    assert_eq!(r.block_count, 0);
    assert!(!r.state_present);
}

#[test]
fn builder_with_skipped_slots() {
    let mut b = EraBuilder::new();
    b.add_block(0, compress(&[0x01; 30]));
    b.add_block(5, compress(&[0x02; 30]));
    b.add_block(7, compress(&[0x03; 30]));

    let mut buf = Vec::new();
    b.build(&mut buf).unwrap();

    let r = verify_era(&buf[..]);
    if !r.valid {
        panic!("verification failed:\n{}", r.errors.join("\n"));
    }
    assert_eq!(r.block_count, 3);
}

#[test]
fn builder_single_block() {
    let mut b = EraBuilder::new();
    b.add_block(42, compress(&[0xFF; 10]));

    let mut buf = Vec::new();
    b.build(&mut buf).unwrap();

    let r = verify_era(&buf[..]);
    if !r.valid {
        panic!("verification failed:\n{}", r.errors.join("\n"));
    }
    assert_eq!(r.block_count, 1);
}

#[test]
fn corrupted_block_data() {
    let mut buf = Vec::new();

    buf.extend_from_slice(&Entry::version().header.encode());

    let block_pos = buf.len() as u64;

    let e = Entry::new(TYPE_COMPRESSED_SIGNED_BEACON_BLOCK, vec![0xFF, 0xFF, 0xFF]);

    buf.extend_from_slice(&e.header.encode());
    buf.extend_from_slice(&e.data);

    let block_index_pos = buf.len() as u64;

    let block_offset = block_pos as i64 - block_index_pos as i64;

    let idx = SlotIndex::with_count(0, vec![block_offset], 1);

    let e = Entry::new(TYPE_SLOT_INDEX, idx.encode());
    buf.extend_from_slice(&e.header.encode());
    buf.extend_from_slice(&e.data);

    let r = verify_era(&buf[..]);

    assert!(!r.valid);

    assert!(r.errors.iter().any(|e| e.contains("decompression")));
}

#[test]
fn era1_complete_block_passes() {
    let version = Entry::version();
    let header = make_era1_header_entry(&[0x01]);
    let body = make_body_entry();
    let td = make_td_entry(0);

    let header_pos = 8;
    let block_index_pos = 8 + header.len() as u64 + body.len() as u64 + td.len() as u64;
    let offset = header_pos as i64 - block_index_pos as i64;

    let block_index = make_slot_index(vec![offset]);

    let mut buf = Vec::new();
    buf.extend_from_slice(&version.header.encode());
    buf.extend_from_slice(&header);
    buf.extend_from_slice(&body);
    buf.extend_from_slice(&td);
    buf.extend_from_slice(&block_index);

    let r = verify_era(&buf[..]);
    if !r.valid {
        panic!("verification failed:\n{}", r.errors.join("\n"));
    }
    assert_eq!(r.block_count, 1);
    assert_eq!(r.format.as_deref(), Some("ERA1"));
}

#[test]
fn era1_complete_block_with_receipts_passes() {
    let mut buf = Vec::new();

    buf.extend_from_slice(&Entry::version().header.encode());

    let header_pos = buf.len() as u64;
    buf.extend_from_slice(&make_era1_header_entry(&[0x01]));
    buf.extend_from_slice(&make_body_entry());
    buf.extend_from_slice(&make_receipts_entry());
    buf.extend_from_slice(&make_td_entry(0));

    let index_pos = buf.len() as u64;
    let offset = header_pos as i64 - index_pos as i64;

    buf.extend_from_slice(&make_slot_index(vec![offset]));

    let r = verify_era(&buf[..]);
    if !r.valid {
        panic!("verification failed:\n{}", r.errors.join("\n"));
    }
    assert_eq!(r.block_count, 1);
}

#[test]
fn era1_missing_body_fails() {
    let mut buf = Vec::new();

    buf.extend_from_slice(&Entry::version().header.encode());

    let header_pos = buf.len() as u64;
    buf.extend_from_slice(&make_era1_header_entry(&[0x01]));
    buf.extend_from_slice(&make_td_entry(0));

    let index_pos = buf.len() as u64;
    let offset = header_pos as i64 - index_pos as i64;

    buf.extend_from_slice(&make_slot_index(vec![offset]));

    let r = verify_era(&buf[..]);
    assert!(!r.valid);
    assert!(
        r.errors
            .iter()
            .any(|e| e.contains("incomplete") && e.contains("BlockBody"))
    );
}

#[test]
fn era1_missing_td_fails() {
    let mut buf = Vec::new();

    buf.extend_from_slice(&Entry::version().header.encode());

    let header_pos = buf.len() as u64;
    buf.extend_from_slice(&make_era1_header_entry(&[0x01]));
    buf.extend_from_slice(&make_body_entry());

    let index_pos = buf.len() as u64;
    let offset = header_pos as i64 - index_pos as i64;

    buf.extend_from_slice(&make_slot_index(vec![offset]));

    let r = verify_era(&buf[..]);
    assert!(!r.valid);
    assert!(
        r.errors
            .iter()
            .any(|e| e.contains("incomplete") && e.contains("TotalDifficulty"))
    );
}

#[test]
fn era1_incomplete_final_block_fails() {
    let mut buf = Vec::new();

    buf.extend_from_slice(&Entry::version().header.encode());

    let header0_pos = buf.len() as u64;
    buf.extend_from_slice(&make_era1_header_entry(&[0x01]));
    buf.extend_from_slice(&make_body_entry());
    buf.extend_from_slice(&make_td_entry(0));

    let header1_pos = buf.len() as u64;
    buf.extend_from_slice(&make_era1_header_entry(&[0x02]));

    let index_pos = buf.len() as u64;

    let offset0 = header0_pos as i64 - index_pos as i64;
    let offset1 = header1_pos as i64 - index_pos as i64;

    buf.extend_from_slice(&make_slot_index(vec![offset0, offset1]));

    let r = verify_era(&buf[..]);
    assert!(!r.valid);
    assert!(r.errors.iter().any(|e| e.contains("incomplete final")));
}

#[test]
fn bad_td_size_fails() {
    let mut buf = Vec::new();

    buf.extend_from_slice(&Entry::version().header.encode());

    let header_pos = buf.len() as u64;

    buf.extend_from_slice(&make_era1_header_entry(&[0x01]));
    buf.extend_from_slice(&make_body_entry());

    // TD with 16 bytes instead of 32
    let e = Entry::new(TYPE_TOTAL_DIFFICULTY, vec![0u8; 16]);
    buf.extend_from_slice(&e.header.encode());
    buf.extend_from_slice(&e.data);

    let index_pos = buf.len() as u64;

    let offset = header_pos as i64 - index_pos as i64;

    buf.extend_from_slice(&make_slot_index(vec![offset]));

    let r = verify_era(&buf[..]);

    assert!(!r.valid);

    assert!(
        r.errors
            .iter()
            .any(|e| e.contains("TotalDifficulty") && e.contains("32"))
    );
}

#[test]
fn bad_accumulator_size_fails() {
    let mut buf = Vec::new();
    buf.extend_from_slice(&Entry::version().header.encode());

    let e = Entry::new(TYPE_BLOCK_ACCUMULATOR, vec![0u8; 16]);
    buf.extend_from_slice(&e.header.encode());
    buf.extend_from_slice(&e.data);

    // Empty index (no blocks)
    buf.extend_from_slice(&make_slot_index(vec![]));

    let r = verify_era(&buf[..]);
    assert!(!r.valid);
    assert!(
        r.errors
            .iter()
            .any(|e| e.contains("BlockAccumulator") && e.contains("32"))
    );
}

#[test]
fn block_accumulator_is_known() {
    let mut buf = Vec::new();
    buf.extend_from_slice(&Entry::version().header.encode());

    let e = Entry::new(TYPE_BLOCK_ACCUMULATOR, [0u8; 32].to_vec());
    buf.extend_from_slice(&e.header.encode());
    buf.extend_from_slice(&e.data);

    buf.extend_from_slice(&make_slot_index(vec![]));

    let r = verify_era(&buf[..]);
    // Fails because no blocks, but must NOT warn about unknown type
    assert!(
        !r.warnings
            .iter()
            .any(|w| w.contains("unknown") || w.contains("0700"))
    );
}

#[test]
fn truly_unknown_type_warns() {
    let mut buf = Vec::new();
    buf.extend_from_slice(&Entry::version().header.encode());

    let e = Entry::new([0xFE, 0xEE], vec![0x01, 0x02]);
    buf.extend_from_slice(&e.header.encode());
    buf.extend_from_slice(&e.data);

    buf.extend_from_slice(&make_slot_index(vec![]));

    let r = verify_era(&buf[..]);
    assert!(r.warnings.iter().any(|w| w.contains("feee")));
}

#[test]
fn orphan_body_warns() {
    let mut buf = Vec::new();
    buf.extend_from_slice(&Entry::version().header.encode());
    buf.extend_from_slice(&make_body_entry());
    buf.extend_from_slice(&make_slot_index(vec![]));

    let r = verify_era(&buf[..]);
    assert!(
        r.warnings
            .iter()
            .any(|w| w.contains("BlockBody") && w.contains("header"))
    );
}

#[test]
fn state_without_index_fails() {
    let mut b = EraBuilder::new();
    b.add_block(0, compress(&[0x01]));
    let mut buf = Vec::new();
    b.build(&mut buf).unwrap();

    // Manually append a state entry without a state index
    let e = Entry::new(TYPE_COMPRESSED_BEACON_STATE, compress(&[0xFF; 20]));
    buf.extend_from_slice(&e.header.encode());
    buf.extend_from_slice(&e.data);

    let r = verify_era(&buf[..]);
    assert!(!r.valid);
    assert!(
        r.errors
            .iter()
            .any(|e| e.contains("state") && e.contains("index"))
    );
}

#[test]
fn index_without_state_warns() {
    let mut buf = Vec::new();
    buf.extend_from_slice(&Entry::version().header.encode());

    let block_pos = buf.len() as u64;

    let e = Entry::new(TYPE_COMPRESSED_SIGNED_BEACON_BLOCK, compress(&[0x01]));
    buf.extend_from_slice(&e.header.encode());
    buf.extend_from_slice(&e.data);

    let block_index_pos = buf.len() as u64;

    let block_offset = block_pos as i64 - block_index_pos as i64;
    let idx = SlotIndex::with_count(0, vec![block_offset], 1);

    let e = Entry::new(TYPE_SLOT_INDEX, idx.encode());
    buf.extend_from_slice(&e.header.encode());
    buf.extend_from_slice(&e.data);

    // State index with no actual state entry
    let idx = SlotIndex::with_count(8192, vec![-100i64], 1);

    let e = Entry::new(TYPE_SLOT_INDEX, idx.encode());
    buf.extend_from_slice(&e.header.encode());
    buf.extend_from_slice(&e.data);

    let r = verify_era(&buf[..]);

    assert!(
        r.warnings
            .iter()
            .any(|w| w.contains("state index") && w.contains("no beacon state"))
    );
}

#[test]
fn offset_points_to_wrong_type_fails() {
    let mut buf = Vec::new();

    buf.extend_from_slice(&Entry::version().header.encode());

    let body_pos = buf.len() as u64;

    let e = Entry::new(TYPE_BLOCK_BODY, vec![0x01]);
    buf.extend_from_slice(&e.header.encode());
    buf.extend_from_slice(&e.data);

    let index_pos = buf.len() as u64;
    let offset = body_pos as i64 - index_pos as i64;

    let idx = SlotIndex::with_count(0, vec![offset], 1);
    let e = Entry::new(TYPE_SLOT_INDEX, idx.encode());
    buf.extend_from_slice(&e.header.encode());
    buf.extend_from_slice(&e.data);

    let r = verify_era(&buf[..]);

    assert!(!r.valid);

    println!("{:#?}", r.errors);

    assert!(
        r.errors
            .iter()
            .any(|e| e.contains("expected") && e.contains("type"))
    );
}

#[test]
fn offset_past_end_of_file_fails() {
    let mut buf = Vec::new();
    buf.extend_from_slice(&Entry::version().header.encode());

    let idx = SlotIndex::with_count(0, vec![999999i64], 1);
    let e = Entry::new(TYPE_SLOT_INDEX, idx.encode());
    buf.extend_from_slice(&e.header.encode());
    buf.extend_from_slice(&e.data);

    let r = verify_era(&buf[..]);
    assert!(!r.valid);
    assert!(r.errors.iter().any(|e| e.contains("past file size")));
}

#[test]
fn offset_not_on_entry_boundary_fails() {
    let mut buf = Vec::new();
    buf.extend_from_slice(&Entry::version().header.encode());

    let e = Entry::new(TYPE_COMPRESSED_HEADER, compress(&[0x01]));
    buf.extend_from_slice(&e.header.encode());
    buf.extend_from_slice(&e.data);

    // Offset points to byte 12 (mid-entry, not aligned)
    let idx = SlotIndex::with_count(0, vec![4i64], 1); // 8 + 4 = 12
    let e = Entry::new(TYPE_SLOT_INDEX, idx.encode());
    buf.extend_from_slice(&e.header.encode());
    buf.extend_from_slice(&e.data);

    let r = verify_era(&buf[..]);
    assert!(!r.valid);
    assert!(r.errors.iter().any(|e| e.contains("does not align")));
}

#[test]
fn non_zero_offset_count_mismatch_fails() {
    let mut buf = Vec::new();
    buf.extend_from_slice(&Entry::version().header.encode());

    let block_pos = buf.len() as u64;
    let e = Entry::new(TYPE_COMPRESSED_SIGNED_BEACON_BLOCK, compress(&[0x01]));
    buf.extend_from_slice(&e.header.encode());
    buf.extend_from_slice(&e.data);

    let index_pos = buf.len() as u64;
    let offset1 = block_pos as i64 - index_pos as i64;
    let offset2 = block_pos as i64 - index_pos as i64;

    // Index has 2 offsets pointing to real blocks, but file only has 1 block
    let idx = SlotIndex::with_count(0, vec![offset1, offset2], 2);
    let e = Entry::new(TYPE_SLOT_INDEX, idx.encode());
    buf.extend_from_slice(&e.header.encode());
    buf.extend_from_slice(&e.data);

    let r = verify_era(&buf[..]);
    assert!(!r.valid);
    assert!(
        r.errors
            .iter()
            .any(|e| e.contains("non-zero offsets") && e.contains("2") && e.contains("1"))
    );
}

#[test]
fn count_field_mismatch_warns() {
    let mut buf = Vec::new();
    buf.extend_from_slice(&Entry::version().header.encode());

    let block_pos = buf.len() as u64;
    let e = Entry::new(TYPE_COMPRESSED_SIGNED_BEACON_BLOCK, compress(&[0x01]));
    buf.extend_from_slice(&e.header.encode());
    buf.extend_from_slice(&e.data);

    let index_pos = buf.len() as u64;
    let offset = block_pos as i64 - index_pos as i64;

    // count field says 5, but offset array has 1 element
    let idx = SlotIndex::with_count(0, vec![offset], 5);
    let e = Entry::new(TYPE_SLOT_INDEX, idx.encode());
    buf.extend_from_slice(&e.header.encode());
    buf.extend_from_slice(&e.data);

    let r = verify_era(&buf[..]);
    assert!(r.warnings.iter().any(|w| w.contains("count field")));
}

#[test]
fn count_matches_after_builder_roundtrip() {
    let mut b = EraBuilder::new();
    b.add_block(0, compress(&[0x01]));
    b.add_block(1, compress(&[0x02]));
    b.add_block(3, compress(&[0x03])); // slot 2 skipped

    let mut buf = Vec::new();
    b.build(&mut buf).unwrap();

    // Parse the index and verify count directly
    let entries = E2StoreReader::new(&buf)
        .read_all()
        .unwrap();
    let idx_entry = entries
        .iter()
        .find(|e| e.header.typ == TYPE_SLOT_INDEX)
        .unwrap();
    let idx = SlotIndex::decode(&idx_entry.data).unwrap();

    assert_eq!(idx.offsets.len(), 4); // slots 0,1,2,3
    assert_eq!(idx.count, 4); // 3 non-zero (slot 2 is 0)
}

#[test]
fn format_detected_as_era() {
    let mut b = EraBuilder::new();
    b.add_block(0, compress(&[0x01]));
    let mut buf = Vec::new();
    b.build(&mut buf).unwrap();

    assert_eq!(verify_era(&buf[..]).format.as_deref(), Some("ERA"));
}

#[test]
fn format_detected_as_era1() {
    let mut buf = Vec::new();
    buf.extend_from_slice(&Entry::version().header.encode());
    buf.extend_from_slice(&make_era1_header_entry(&[0x01]));
    buf.extend_from_slice(&make_body_entry());
    buf.extend_from_slice(&make_td_entry(0));
    buf.extend_from_slice(&make_slot_index(vec![-8i64]));

    assert_eq!(verify_era(&buf[..]).format.as_deref(), Some("ERA1"));
}

#[test]
fn verdict_on_given_entries() {
    let entries = vec![
        Entry::version(),
        Entry::new(TYPE_COMPRESSED_SIGNED_BEACON_BLOCK, vec![1]),
    ];
    let r = verify_decoded(&entries, &vec![None, None]);
    assert_eq!(r.block_count, 1);
    let before = r.errors.len();
    let r = verify_decoded(&entries, &vec![None, Some("bad frame".to_string())]);
    assert!(!r.valid);
    assert_eq!(r.errors.len(), before + 1);
    assert!(r.errors.iter().any(|e| e.contains("bad frame")));
    assert_eq!(
        verify_decoded(&Vec::new(), &Vec::new()).errors,
        vec!["empty e2store file"]
    );
}

#[test]
fn unreadable_file() {
    let r = verify_era(&[0x65, 0x32, 0, 0]);
    assert!(!r.valid);
    assert_eq!(r.errors.len(), 1);
    assert!(r.format.is_none());
}
