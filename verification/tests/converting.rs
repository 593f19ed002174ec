//! Conversion, reindexing, stripping and splitting.

use std::io::Write;

use brandon::cli::building::slot_files;
use brandon::convert::{compress_into, era1_to_era};
use brandon::convert::reindex::{can_reindex, extract_index_metadata, reindex};
use brandon::convert::split::split_blocks;
use brandon::convert::strip::{strip, StripConfig};
use brandon::error::Error;
use brandon::format::e2store::{E2StoreReader, TYPE_VERSION};
use brandon::format::era::{
    decompress_entry, SlotIndex, TYPE_BLOCK_INDEX, TYPE_COMPRESSED_BEACON_STATE,
    TYPE_COMPRESSED_SIGNED_BEACON_BLOCK, TYPE_SLOT_INDEX, TYPE_STATE_INDEX,
};
use brandon::format::era1::{
    TYPE_BLOCK_ACCUMULATOR, TYPE_BLOCK_BODY, TYPE_COMPRESSED_HEADER, TYPE_RECEIPTS,
    TYPE_TOTAL_DIFFICULTY,
};
use brandon::fs::directory::DirectoryEntry;
use brandon::format::Entry;
use brandon::verify::verify_era;
use brandon::write::{E2StoreWriter, EraBuilder};
use brandon::{Era1Block, EraRandomReader};
use snap::write::FrameEncoder;

fn compress(data: &[u8]) -> Vec<u8> {
    let mut enc = FrameEncoder::new(Vec::new());
    enc.write_all(data).unwrap();
    enc.into_inner().unwrap()
}

/// Build a minimal valid ERA1 file covering slots 100..102 (slot 101 skipped).
fn build_test_era1() -> Vec<u8> {
    let mut w = E2StoreWriter::new(Vec::new());
    w.write_entry(&Entry::version()).unwrap();

    // Slot 100
    w.write_entry(&Entry::new(TYPE_COMPRESSED_HEADER, compress(&[0x64])))
        .unwrap();
    w.write_entry(&Entry::new(TYPE_BLOCK_BODY, vec![0x01]))
        .unwrap();
    let mut td = [0u8; 32];
    td[31] = 100;
    w.write_entry(&Entry::new(TYPE_TOTAL_DIFFICULTY, td.to_vec()))
        .unwrap();

    // Slot 102 (101 skipped)
    w.write_entry(&Entry::new(TYPE_COMPRESSED_HEADER, compress(&[0x66])))
        .unwrap();
    w.write_entry(&Entry::new(TYPE_BLOCK_BODY, vec![0x02]))
        .unwrap();
    let mut td2 = [0u8; 32];
    td2[31] = 102;
    w.write_entry(&Entry::new(TYPE_TOTAL_DIFFICULTY, td2.to_vec()))
        .unwrap();

    // Block index: slots 100, 101, 102
    let idx = SlotIndex::with_count(100, vec![-8i64, 0i64, -8i64], 2);
    w.write_entry(&Entry::new(TYPE_SLOT_INDEX, idx.encode()))
        .unwrap();

    w.into_inner()
}

#[test]
fn era1_to_era_preserves_slot_range() {
    let input = build_test_era1();
    let mut output = Vec::new();

    era1_to_era(
        &input,
        &mut output,
        |_era1_block: &Era1Block, ssz_buf: &mut Vec<u8>| {
            // Dummy synthesizer: just write a fixed SSZ-like payload
            ssz_buf.extend_from_slice(&[0x00, 0x01, 0x02, 0x03]);
            Ok::<(), Error>(())
        },
    )
    .unwrap()
    .unwrap();

    // Verify the output is a valid ERA file
    let result = verify_era(&output[..]);
    if !result.valid {
        panic!("output failed verification:\n{}", result.errors.join("\n"));
    }
    assert_eq!(result.format.as_deref(), Some("ERA"));
    assert_eq!(result.block_count, 2);

    // Verify slot range is preserved (100..102, not 0..2)
    let mut rr = EraRandomReader::new(&output).unwrap();
    assert_eq!(rr.starting_slot(), Some(100));
    assert_eq!(rr.slot_count(), Some(3)); // slots 100, 101, 102

    // Slot 100 has a block
    assert!(rr.read_block_at_slot(100).unwrap().is_some());
    // Slot 101 is skipped
    assert!(rr.read_block_at_slot(101).unwrap().is_none());
    // Slot 102 has a block
    assert!(rr.read_block_at_slot(102).unwrap().is_some());
}

#[test]
fn era1_to_era_synthesizer_receives_correct_blocks() {
    let input = build_test_era1();
    let mut output = Vec::new();
    let mut seen_td: Vec<u8> = Vec::new();

    era1_to_era(
        &input,
        &mut output,
        |era1_block: &Era1Block, ssz_buf: &mut Vec<u8>| -> Result<(), Error> {
            // Capture the TD value from each block to verify correct ordering
            seen_td.push(era1_block.total_difficulty.0[31]);
            ssz_buf.extend_from_slice(b"dummy");
            Ok(())
        },
    )
    .unwrap()
    .unwrap();

    // Should have seen TD values 100 and 102 (in order)
    assert_eq!(seen_td, vec![100, 102]);
}

#[test]
fn era1_to_era_empty_file() {
    let mut w = E2StoreWriter::new(Vec::new());
    w.write_entry(&Entry::version()).unwrap();
    let idx = SlotIndex::new(0, vec![]);
    w.write_entry(&Entry::new(TYPE_SLOT_INDEX, idx.encode()))
        .unwrap();

    let mut output = Vec::new();
    era1_to_era(&w.into_inner(), &mut output, |_: &Era1Block, buf: &mut Vec<u8>| {
        buf.extend_from_slice(b"x");
        Ok::<(), Error>(())
    })
    .unwrap()
    .unwrap();

    let result = verify_era(&output[..]);
    assert!(result.valid);
    assert_eq!(result.block_count, 0);
}

#[test]
fn era1_to_era_rejects_non_era1() {
    // Build an ERA file (not ERA1) and try to convert it
    let mut w = E2StoreWriter::new(Vec::new());
    w.write_entry(&Entry::version()).unwrap();
    w.write_entry(&Entry::new(
        TYPE_COMPRESSED_SIGNED_BEACON_BLOCK,
        compress(&[0x01]),
    ))
    .unwrap();
    let idx = SlotIndex::with_count(0, vec![-8i64], 1);
    w.write_entry(&Entry::new(TYPE_SLOT_INDEX, idx.encode()))
        .unwrap();

    let mut output = Vec::new();
    let result = era1_to_era(&w.into_inner(), &mut output, |_: &Era1Block, buf: &mut Vec<u8>| {
        buf.extend_from_slice(b"x");
        Ok::<(), Error>(())
    });

    assert!(result.is_err());
    assert!(result.unwrap_err().to_string().contains("expected ERA1"));
}

fn build_era1_bad_index() -> Vec<u8> {
    let mut w = E2StoreWriter::new(Vec::new());
    w.write_entry(&Entry::version()).unwrap();

    w.write_entry(&Entry::new(TYPE_COMPRESSED_HEADER, compress(&[0x32])))
        .unwrap();
    w.write_entry(&Entry::new(TYPE_BLOCK_BODY, vec![0x01]))
        .unwrap();
    let mut td = [0u8; 32];
    td[31] = 50;
    w.write_entry(&Entry::new(TYPE_TOTAL_DIFFICULTY, td.to_vec()))
        .unwrap();

    w.write_entry(&Entry::new(TYPE_COMPRESSED_HEADER, compress(&[0x32])))
        .unwrap();
    w.write_entry(&Entry::new(TYPE_BLOCK_BODY, vec![0x02]))
        .unwrap();
    let mut td2 = [0u8; 32];
    td2[31] = 52;
    w.write_entry(&Entry::new(TYPE_TOTAL_DIFFICULTY, td2.to_vec()))
        .unwrap();

    let idx = SlotIndex::with_count(50, vec![-999i64, 0i64, -888i64], 2);
    w.write_entry(&Entry::new(TYPE_BLOCK_INDEX, idx.encode()))
        .unwrap();

    w.into_inner()
}

#[test]
fn reindex_fixes_bad_offsets() {
    let input = build_era1_bad_index();
    let mut output = Vec::new();

    reindex(&input, &mut output).unwrap();

    let result = verify_era(&output[..]);
    if !result.valid {
        panic!("reindexed file failed:\n{}", result.errors.join("\n"));
    }

    let mut rr = EraRandomReader::new(&output).unwrap();
    assert_eq!(rr.starting_slot(), Some(50));
    assert_eq!(rr.slot_count(), Some(3));
    assert!(rr.read_block_at_slot(50).unwrap().is_some());
    assert!(rr.read_block_at_slot(51).unwrap().is_none());
    assert!(rr.read_block_at_slot(52).unwrap().is_some());
}

#[test]
fn reindex_preserves_data_integrity() {
    let input = build_era1_bad_index();
    let mut output = Vec::new();
    reindex(&input, &mut output).unwrap();

    let mut rr = EraRandomReader::new(&output).unwrap();
    let full = rr.read_full_era1_block_at_slot(50).unwrap().unwrap();
    assert_eq!(full.header, vec![0x32]);
}

#[test]
fn reindex_empty_file() {
    let mut w = E2StoreWriter::new(Vec::new());
    w.write_entry(&Entry::version()).unwrap();
    let idx = SlotIndex::new(0, vec![]);
    w.write_entry(&Entry::new(TYPE_BLOCK_INDEX, idx.encode()))
        .unwrap();

    let mut output = Vec::new();
    reindex(&w.into_inner(), &mut output).unwrap();

    let result = verify_era(&output[..]);
    assert!(result.valid);
}

#[test]
fn split_creates_correct_files() {
    let mut w = E2StoreWriter::new(Vec::new());
    w.write_entry(&Entry::version()).unwrap();

    w.write_entry(&Entry::new(TYPE_COMPRESSED_HEADER, compress(&[0x01])))
        .unwrap();
    w.write_entry(&Entry::new(TYPE_COMPRESSED_HEADER, compress(&[0x05])))
        .unwrap();

    let idx = SlotIndex::with_count(100, vec![-8i64, 0, 0, 0, 0, -8i64], 2);
    w.write_entry(&Entry::new(TYPE_BLOCK_INDEX, idx.encode()))
        .unwrap();

    let mut files = Vec::new();
    let count = split_blocks(&w.into_inner(), &mut files).unwrap();

    assert_eq!(count, 2);
    assert!(files.iter().any(|f| f.name == "100.snappy"));
    assert!(files.iter().any(|f| f.name == "105.snappy"));
    assert!(!files.iter().any(|f| f.name == "101.snappy"));
}

#[test]
fn split_file_contents_match() {
    let payload = compress(&[0xAB, 0xCD, 0xEF]);
    let mut w = E2StoreWriter::new(Vec::new());
    w.write_entry(&Entry::version()).unwrap();
    w.write_entry(&Entry::new(TYPE_COMPRESSED_HEADER, payload.clone()))
        .unwrap();
    let idx = SlotIndex::with_count(42, vec![-8164], 1);
    w.write_entry(&Entry::new(TYPE_BLOCK_INDEX, idx.encode()))
        .unwrap();

    let mut files = Vec::new();
    split_blocks(&w.into_inner(), &mut files).unwrap();

    let file = files.iter().find(|f| f.name == "42.snappy").unwrap();
    assert_eq!(file.data, payload);
}

#[test]
fn split_empty_file() {
    let mut w = E2StoreWriter::new(Vec::new());
    w.write_entry(&Entry::version()).unwrap();
    let idx = SlotIndex::new(0, vec![]);
    w.write_entry(&Entry::new(TYPE_BLOCK_INDEX, idx.encode()))
        .unwrap();

    let mut files = Vec::new();
    let count = split_blocks(&w.into_inner(), &mut files).unwrap();
    assert_eq!(count, 0);
}

fn join_parts(b: &Era1Block, buf: &mut Vec<u8>) -> Result<(), Error> {
    assert!(buf.is_empty());
    buf.extend_from_slice(&b.header);
    buf.extend_from_slice(&b.body);
    Ok(())
}

#[test]
fn converted_blocks_are_the_replies() {
    let input = build_test_era1();
    let mut output = Vec::new();
    era1_to_era(&input, &mut output, join_parts).unwrap().unwrap();
    let mut rr = EraRandomReader::new(&output).unwrap();
    let b = rr.read_block_at_slot(100).unwrap().unwrap();
    assert_eq!(b.primary_data(), &[0x64, 0x01]);
    let b = rr.read_block_at_slot(102).unwrap().unwrap();
    assert_eq!(b.primary_data(), &[0x66, 0x02]);
}

#[test]
fn conversion_stops_at_a_refusal() {
    let input = build_test_era1();
    let mut output = vec![7u8];
    let mut calls = 0;
    let result = era1_to_era(&input, &mut output, |_: &Era1Block, buf: &mut Vec<u8>| {
        calls += 1;
        buf.push(1);
        Err::<(), Error>(Error::invalid_era("no".to_string()))
    });
    assert_eq!(
        result.unwrap_err().to_string(),
        "e2store parse error: invalid era file: no"
    );
    assert_eq!(calls, 1);
    assert_eq!(output, vec![7u8]);
}

#[test]
fn conversion_of_blocks_with_one_slot() {
    // The index has one slot for two blocks: the second gets the number 1 too
    let mut w = E2StoreWriter::new(Vec::new());
    w.write_entry(&Entry::version()).unwrap();
    w.write_entry(&Entry::new(TYPE_COMPRESSED_HEADER, compress(&[0x01])))
        .unwrap();
    w.write_entry(&Entry::new(TYPE_COMPRESSED_HEADER, compress(&[0x02])))
        .unwrap();
    let idx = SlotIndex::with_count(1, vec![-8i64], 1);
    w.write_entry(&Entry::new(TYPE_BLOCK_INDEX, idx.encode()))
        .unwrap();
    let mut output = Vec::new();
    let result = era1_to_era(&w.into_inner(), &mut output, join_parts);
    assert!(result.unwrap().is_none());
    assert!(output.is_empty());
}

#[test]
fn conversion_of_no_archive() {
    let mut output = Vec::new();
    let result = era1_to_era(&[1, 2, 3], &mut output, join_parts);
    assert!(result.unwrap_err().to_string().contains("missing version"));
}

#[test]
fn reindexing_twice_changes_nothing() {
    let input = build_era1_bad_index();
    let mut once = Vec::new();
    reindex(&input, &mut once).unwrap();
    assert!(can_reindex(&once));
    let mut twice = Vec::new();
    reindex(&once, &mut twice).unwrap();
    assert_eq!(once, twice);
}

#[test]
fn stripping_nothing_is_reindexing() {
    let input = build_era1_bad_index();
    let mut a = Vec::new();
    reindex(&input, &mut a).unwrap();
    let mut b = Vec::new();
    strip(&input, &mut b, &StripConfig::default()).unwrap();
    assert_eq!(a, b);
}

#[test]
fn stripped_file_has_headers_only() {
    let input = build_era1_bad_index();
    let mut output = Vec::new();
    strip(&input, &mut output, &StripConfig::keep_headers_only()).unwrap();
    let entries = E2StoreReader::new(&output).read_all().unwrap();
    let types: Vec<[u8; 2]> = entries.iter().map(|e| e.header.typ).collect();
    assert_eq!(
        types,
        vec![
            TYPE_VERSION,
            TYPE_COMPRESSED_HEADER,
            TYPE_COMPRESSED_HEADER,
            TYPE_BLOCK_INDEX
        ]
    );
    let mut rr = EraRandomReader::new(&output).unwrap();
    assert!(rr.read_block_at_slot(52).unwrap().is_some());
}

#[test]
fn strip_config_choices() {
    let receipts = StripConfig::receipts_only();
    assert!(!receipts.should_keep(&TYPE_RECEIPTS));
    assert!(receipts.should_keep(&TYPE_BLOCK_BODY));
    let all = StripConfig::keep_headers_only();
    assert!(!all.should_keep(&TYPE_BLOCK_BODY));
    assert!(!all.should_keep(&TYPE_TOTAL_DIFFICULTY));
    assert!(!all.should_keep(&TYPE_BLOCK_ACCUMULATOR));
    assert!(!all.should_keep(&TYPE_COMPRESSED_BEACON_STATE));
    assert!(all.should_keep(&TYPE_COMPRESSED_HEADER));
}

#[test]
fn reindex_keeps_the_state_of_a_built_file() {
    let mut b = EraBuilder::new();
    b.add_block(10, compress(&[0x0a]));
    b.add_block(12, compress(&[0x0c]));
    b.set_state(8192, compress(&[0x55; 20]));
    let mut input = Vec::new();
    b.build(&mut input).unwrap();

    let mut output = Vec::new();
    reindex(&input, &mut output).unwrap();
    let entries = E2StoreReader::new(&output).read_all().unwrap();
    assert_eq!(entries.len(), 6);
    assert_eq!(entries[4].header.typ, TYPE_BLOCK_INDEX);
    assert_eq!(entries[5].header.typ, TYPE_STATE_INDEX);
    let state_index = SlotIndex::decode(&entries[5].data).unwrap();
    assert_eq!(state_index.starting_slot, 8192);

    let r = verify_era(&output);
    assert_eq!(r.errors, Vec::<String>::new());
    assert!(r.state_present);
    let mut rr = EraRandomReader::new(&output).unwrap();
    assert_eq!(rr.starting_slot(), Some(10));
    let block = rr.read_block_at_slot(12).unwrap().unwrap();
    assert_eq!(block.primary_data(), &[0x0c]);
    assert_eq!(rr.read_state().unwrap().unwrap(), vec![0x55; 20]);
}

#[test]
fn reindex_reports_missing_version() {
    let mut output = Vec::new();
    let entry = Entry::new(TYPE_BLOCK_BODY, vec![1]);
    let mut w = E2StoreWriter::new(Vec::new());
    w.write_entry(&entry).unwrap();
    let err = reindex(&w.into_inner(), &mut output).unwrap_err();
    assert_eq!(
        err.to_string(),
        "e2store parse error: missing version entry as first entry"
    );
    assert!(output.is_empty());
}

#[test]
fn reindex_writes_up_to_a_short_read() {
    let mut w = E2StoreWriter::new(Vec::new());
    w.write_entry(&Entry::version()).unwrap();
    w.write_entry(&Entry::new(TYPE_BLOCK_BODY, vec![1, 2])).unwrap();
    let whole = w.into_inner();
    let mut input = whole.clone();
    input.extend_from_slice(&[0x04, 0x00, 0x09, 0x00, 0x00, 0x00, 0x00, 0x00, 0x01]);
    let mut output = Vec::new();
    let err = reindex(&input, &mut output).unwrap_err();
    assert_eq!(err.to_string(), "io error: failed to fill whole buffer");
    assert_eq!(output, whole);
}

#[test]
fn blocks_out_of_order_cannot_be_reindexed() {
    // Three blocks, an index with two slots from 100 on: the third gets 2
    let mut w = E2StoreWriter::new(Vec::new());
    w.write_entry(&Entry::version()).unwrap();
    for i in 0..3u8 {
        w.write_entry(&Entry::new(TYPE_COMPRESSED_HEADER, compress(&[i])))
            .unwrap();
    }
    let idx = SlotIndex::with_count(100, vec![-8, -8], 2);
    w.write_entry(&Entry::new(TYPE_BLOCK_INDEX, idx.encode()))
        .unwrap();
    assert!(!can_reindex(&w.into_inner()));
}

#[test]
fn split_files_build_the_same_blocks() {
    let mut b = EraBuilder::new();
    b.add_block(7, compress(&[1, 2, 3]));
    b.add_block(9, compress(&[4, 5]));
    let mut archive = Vec::new();
    b.build(&mut archive).unwrap();
    let mut files = Vec::new();
    assert_eq!(split_blocks(&archive, &mut files).unwrap(), 2);

    let entries: Vec<DirectoryEntry> = files
        .iter()
        .map(|f| DirectoryEntry { name: f.name.clone(), path: f.name.clone() })
        .collect();
    let slots = slot_files(&entries).unwrap();
    assert_eq!(
        slots,
        vec![(7, "7.snappy".to_string()), (9, "9.snappy".to_string())]
    );
    let mut again = EraBuilder::new();
    for (i, (slot, _)) in slots.iter().enumerate() {
        again.add_block(*slot, files[i].data.clone());
    }
    let mut rebuilt = Vec::new();
    again.build(&mut rebuilt).unwrap();
    assert_eq!(archive, rebuilt);
}

#[test]
fn split_reports_a_short_read() {
    let mut w = E2StoreWriter::new(Vec::new());
    w.write_entry(&Entry::version()).unwrap();
    w.write_entry(&Entry::new(TYPE_COMPRESSED_HEADER, vec![9])).unwrap();
    let mut input = w.into_inner();
    input.extend_from_slice(&[0x03, 0x00, 0x09, 0x00, 0x00, 0x00, 0x00, 0x00, 0x01]);
    let mut files = Vec::new();
    let err = split_blocks(&input, &mut files).unwrap_err();
    assert_eq!(err.to_string(), "io error: failed to fill whole buffer");
    assert_eq!(files.len(), 1);
    assert_eq!(files[0].name, "0.snappy");
    assert_eq!(files[0].data, vec![9]);
}

#[test]
fn compression_can_be_undone() {
    let mut out = vec![1, 2, 3];
    compress_into(b"some bytes", &mut out).unwrap();
    assert_ne!(out, b"some bytes".to_vec());
    assert_eq!(decompress_entry(&out).unwrap(), b"some bytes".to_vec());
    compress_into(b"", &mut out).unwrap();
    assert_eq!(decompress_entry(&out).unwrap(), b"".to_vec());
}

#[test]
fn stripped_state_is_gone() {
    let mut builder = EraBuilder::new();
    builder.add_block(7, compress(b"block"));
    builder.set_state(8, compress(b"state"));
    let mut input = Vec::new();
    builder.build(&mut input).unwrap();
    let config = StripConfig {
        state: true,
        ..StripConfig::default()
    };
    let mut output = Vec::new();
    strip(&input, &mut output, &config).unwrap();
    let mut rr = EraRandomReader::new(&output).unwrap();
    assert!(rr.read_state().unwrap().is_none());
    assert!(rr.read_block_at_slot(7).unwrap().is_some());
}

#[test]
fn strips_combine_and_commute() {
    let mut w = E2StoreWriter::new(Vec::new());
    w.write_entry(&Entry::version()).unwrap();
    for slot in [3u8, 7] {
        w.write_entry(&Entry::new(TYPE_COMPRESSED_HEADER, compress(&[slot])))
            .unwrap();
        w.write_entry(&Entry::new(TYPE_BLOCK_BODY, vec![slot; 3])).unwrap();
        w.write_entry(&Entry::new(TYPE_RECEIPTS, vec![slot; 5])).unwrap();
        w.write_entry(&Entry::new(TYPE_TOTAL_DIFFICULTY, vec![slot; 32]))
            .unwrap();
    }
    let idx = SlotIndex::new(3, vec![-1, 0, 0, 0, -1]);
    w.write_entry(&Entry::new(TYPE_BLOCK_INDEX, idx.encode()))
        .unwrap();
    let data = w.into_inner();

    let done = |data: &[u8], config: &StripConfig| {
        let mut out = Vec::new();
        strip(data, &mut out, config).unwrap();
        out
    };
    let receipts = StripConfig::receipts_only();
    let bodies = StripConfig {
        bodies: true,
        ..StripConfig::default()
    };
    let both = StripConfig {
        receipts: true,
        bodies: true,
        ..StripConfig::default()
    };
    let once = done(&data, &both);
    assert_eq!(done(&done(&data, &receipts), &bodies), once);
    assert_eq!(done(&done(&data, &bodies), &receipts), once);
    assert_eq!(done(&once, &both), once);
}

#[test]
fn reindexing_goes_by_block_and_state_indexes() {
    let index = |typ: [u8; 2], slot: u64| Entry::new(typ, SlotIndex::new(slot, vec![1]).encode());
    let metadata = |entries: &[Entry]| {
        let mut w = E2StoreWriter::new(Vec::new());
        w.write_entry(&Entry::version()).unwrap();
        w.write_all(entries).unwrap();
        extract_index_metadata(&w.into_inner()).unwrap()
    };
    // The last of each counts
    assert_eq!(
        metadata(&[
            index(TYPE_BLOCK_INDEX, 5),
            index(TYPE_BLOCK_INDEX, 6),
            index(TYPE_STATE_INDEX, 7),
            index(TYPE_STATE_INDEX, 8),
        ]),
        (vec![6], Some(8))
    );
    // Slot indexes count only where there are none of the others
    assert_eq!(
        metadata(&[
            index(TYPE_BLOCK_INDEX, 5),
            index(TYPE_STATE_INDEX, 7),
            index(TYPE_SLOT_INDEX, 100),
            index(TYPE_SLOT_INDEX, 200),
        ]),
        (vec![5], Some(7))
    );
    assert_eq!(
        metadata(&[index(TYPE_SLOT_INDEX, 100), index(TYPE_SLOT_INDEX, 200)]),
        (vec![100], Some(200))
    );
    assert_eq!(
        metadata(&[index(TYPE_SLOT_INDEX, 100), index(TYPE_BLOCK_INDEX, 5)]),
        (vec![5], None)
    );
}
