//! What the commands report.

use std::io::Write;

use brandon::cli::building::BuildResult;
use brandon::cli::convert::{
    check_strip, reindexed_report, saved_size, split_report, stripped_report,
};
use brandon::cli::info::{file_info, has_format, DirInfo, InfoError};
use brandon::cli::read::{
    make_block_summary, prefix_text, read_slot, read_stream, sha256_prefix, show_block, show_state,
    RawWrite, ReadArgs, ReadError, ReadFormat, ReadPlan, SlotAction, StreamOptions,
};
use brandon::cli::verify::{file_outcome, DirVerify};
use brandon::cli::{count_entry_types, entry_type_name, human_size};
use brandon::convert::strip::StripConfig;
use brandon::format::era::{SlotIndex, TYPE_BLOCK_INDEX, TYPE_SLOT_INDEX};
use brandon::format::era1::{
    TYPE_BLOCK_ACCUMULATOR, TYPE_BLOCK_BODY, TYPE_COMPRESSED_HEADER, TYPE_RECEIPTS,
    TYPE_TOTAL_DIFFICULTY, U256,
};
use brandon::format::types::{TYPE_COMPRESSED_BEACON_STATE, TYPE_COMPRESSED_SIGNED_BEACON_BLOCK};
use brandon::format::{Entry, Header};
use brandon::verify::verify_era;
use brandon::write::{E2StoreWriter, EraBuilder};
use brandon::{Block, Era1Block, EraBlock};
use snap::write::FrameEncoder;

fn compress(data: &[u8]) -> Vec<u8> {
    let mut enc = FrameEncoder::new(Vec::new());
    enc.write_all(data).unwrap();
    enc.into_inner().unwrap()
}

/// Blocks at slots 8192 and 8194, and a state.
fn era_file() -> Vec<u8> {
    let mut b = EraBuilder::new();
    b.add_block(8192, compress(b"abc"));
    b.add_block(8194, compress(b""));
    b.set_state(8200, compress(b"state"));
    let mut out = Vec::new();
    b.build(&mut out).unwrap();
    out
}

/// One block at slot 5.
fn era1_file() -> Vec<u8> {
    let mut w = E2StoreWriter::new(Vec::new());
    w.write_entry(&Entry::version()).unwrap();
    w.write_entry(&Entry::new(TYPE_COMPRESSED_HEADER, compress(b"abc")))
        .unwrap();
    w.write_entry(&Entry::new(TYPE_BLOCK_BODY, vec![1, 2])).unwrap();
    w.write_entry(&Entry::new(TYPE_RECEIPTS, vec![3])).unwrap();
    w.write_entry(&Entry::new(TYPE_TOTAL_DIFFICULTY, vec![9; 32]))
        .unwrap();
    let len = w.into_inner().len() as i64;
    let mut w = E2StoreWriter::new(Vec::new());
    w.write_entry(&Entry::version()).unwrap();
    w.write_entry(&Entry::new(TYPE_COMPRESSED_HEADER, compress(b"abc")))
        .unwrap();
    w.write_entry(&Entry::new(TYPE_BLOCK_BODY, vec![1, 2])).unwrap();
    w.write_entry(&Entry::new(TYPE_RECEIPTS, vec![3])).unwrap();
    w.write_entry(&Entry::new(TYPE_TOTAL_DIFFICULTY, vec![9; 32]))
        .unwrap();
    let idx = SlotIndex::new(5, vec![8 - len]);
    w.write_entry(&Entry::new(TYPE_SLOT_INDEX, idx.encode()))
        .unwrap();
    w.into_inner()
}

/// The same formula in floating point.
fn reference_size(bytes: u64) -> String {
    let units = ["B", "KiB", "MiB", "GiB", "TiB"];
    let mut size = bytes as f64;
    let mut unit = 0;
    while size >= 1024.0 && unit < 4 {
        size /= 1024.0;
        unit += 1;
    }
    if unit == 0 {
        format!("{bytes} B")
    } else {
        format!("{size:.2} {}", units[unit])
    }
}

#[test]
fn sizes_for_people() {
    assert_eq!(human_size(0), "0 B");
    assert_eq!(human_size(1023), "1023 B");
    assert_eq!(human_size(1024), "1.00 KiB");
    assert_eq!(human_size(1536), "1.50 KiB");
    assert_eq!(human_size(5 * 1024 * 1024), "5.00 MiB");
    assert_eq!(human_size(u64::MAX), "16777216.00 TiB");
}

#[test]
fn sizes_agree_with_floating_point() {
    let mut x: u64 = 1;
    for _ in 0..64 {
        for d in 0..40u64 {
            for y in [x.wrapping_sub(d), x.wrapping_add(d), x.wrapping_mul(2 * d + 1)] {
                assert_eq!(human_size(y), reference_size(y), "{y}");
            }
        }
        x = x.wrapping_mul(2);
    }
    // Halfway cases: a multiple of 1/8 with three decimal places
    for k in 0..4096u64 {
        let y = 1024 * 1024 + 128 * k;
        assert_eq!(human_size(y), reference_size(y), "{y}");
        let z = 1024 + k;
        assert_eq!(human_size(z), reference_size(z), "{z}");
        let big = (1u64 << 53) + 1 + (k << 30) + k;
        assert_eq!(human_size(big), reference_size(big), "{big}");
        let huge = u64::MAX - (k << 9) - k;
        assert_eq!(human_size(huge), reference_size(huge), "{huge}");
    }
    let mut seed: u64 = 0x9e3779b97f4a7c15;
    for i in 0..20000u32 {
        seed ^= seed << 13;
        seed ^= seed >> 7;
        seed ^= seed << 17;
        let y = seed >> (i % 64);
        assert_eq!(human_size(y), reference_size(y), "{y}");
    }
}

#[test]
fn names_of_entry_types() {
    assert_eq!(entry_type_name(&[0x65, 0x32]), "Version");
    assert_eq!(
        entry_type_name(&TYPE_COMPRESSED_SIGNED_BEACON_BLOCK),
        "CompressedSignedBeaconBlock"
    );
    assert_eq!(
        entry_type_name(&TYPE_COMPRESSED_BEACON_STATE),
        "CompressedBeaconState"
    );
    assert_eq!(entry_type_name(&TYPE_SLOT_INDEX), "SlotIndex");
    assert_eq!(entry_type_name(&TYPE_BLOCK_INDEX), "BlockIndex");
    assert_eq!(entry_type_name(&TYPE_COMPRESSED_HEADER), "CompressedHeader");
    assert_eq!(entry_type_name(&TYPE_BLOCK_BODY), "BlockBody");
    assert_eq!(entry_type_name(&TYPE_RECEIPTS), "Receipts");
    assert_eq!(entry_type_name(&TYPE_TOTAL_DIFFICULTY), "TotalDifficulty");
    assert_eq!(entry_type_name(&TYPE_BLOCK_ACCUMULATOR), "BlockAccumulator");
    assert_eq!(entry_type_name(&[0xff, 0xff]), "Unknown");
}

#[test]
fn entry_types_are_counted_by_name() {
    let headers = vec![
        Header::new([0x65, 0x32], 0),
        Header::new(TYPE_RECEIPTS, 1),
        Header::new(TYPE_BLOCK_BODY, 1),
        Header::new([0xff, 0xfe], 1),
        Header::new(TYPE_RECEIPTS, 1),
        Header::new([0xff, 0xff], 1),
    ];
    assert_eq!(
        count_entry_types(&headers),
        vec![
            ("BlockBody".to_string(), 1),
            ("Receipts".to_string(), 2),
            ("Unknown".to_string(), 2),
        ]
    );
    assert!(count_entry_types(&[]).is_empty());
}

#[test]
fn info_about_a_file() {
    let data = era_file();
    assert!(has_format(&data));
    let info = file_info("a.era".to_string(), data.len() as u64, &data).unwrap();
    assert_eq!(info.format, "ERA");
    assert_eq!(info.starting_slot, 8192);
    assert_eq!(info.slot_range, [8192, 8194]);
    assert_eq!(info.block_count, 2);
    assert!(info.state_present);
    assert_eq!(info.total_entries, 5);
    assert_eq!(
        info.to_string(),
        format!(
            "Format:            ERA\n\
             File size:         {n} B ({n})\n\
             Starting slot:     8192\n\
             Slot range:        8192..8194\n\
             Block count:       2\n\
             State present:     yes\n\
             Total entries:     5\n\
             \n\
             Entry breakdown:\n\
             \u{20} CompressedBeaconState       1\n\
             \u{20} CompressedSignedBeaconBlock 2\n\
             \u{20} SlotIndex                   2\n",
            n = data.len()
        )
    );
}

#[test]
fn info_about_an_era1_file() {
    let data = era1_file();
    let info = file_info("a.era1".to_string(), 2048, &data).unwrap();
    assert_eq!(info.path, "a.era1");
    assert_eq!(info.format, "ERA1");
    assert_eq!(info.file_size_human, "2.00 KiB");
    assert_eq!(info.slot_range, [5, 5]);
    assert!(!info.state_present);
}

#[test]
fn info_needs_a_readable_file() {
    assert!(matches!(
        file_info("x".to_string(), 0, &[]),
        Err(InfoError::Empty)
    ));
    assert!(matches!(
        file_info("x".to_string(), 3, &[0x65, 0x32, 0]),
        Err(InfoError::Empty)
    ));
    let mut reserved = Header::new([0x65, 0x32], 0).encode();
    reserved[7] = 1;
    assert!(matches!(
        file_info("x".to_string(), 8, &reserved),
        Err(InfoError::Scan(_))
    ));
    let no_version = Header::new(TYPE_RECEIPTS, 0).encode();
    assert!(matches!(
        file_info("x".to_string(), 8, &no_version),
        Err(InfoError::Open(_))
    ));
    assert!(!has_format(&Header::new([0x65, 0x32], 0).encode()));
}

#[test]
fn info_about_a_directory() {
    let era = era_file();
    let era1 = era1_file();
    let mut sums = DirInfo::new();
    sums.add_file("a.era1".to_string(), 1000, Some(&era1));
    sums.add_file("b.era".to_string(), 500, None);
    sums.add_file("c.era".to_string(), 48, Some(&[1, 2, 3]));
    sums.add_file("d.era".to_string(), 500, Some(&era));
    let r = sums.finish("/data".to_string());
    assert_eq!(r.file_count, 2);
    assert_eq!(r.files[1].path, "d.era");
    assert_eq!(
        r.to_string(),
        "Directory:  /data\n\
         Files:      2\n\
         Total size: 2.00 KiB (2048)\n\
         Blocks:     3\n\
         Slot range: 5..8194\n\
         States:     1\n"
    );
}

#[test]
fn info_about_a_directory_without_readable_files() {
    let r = DirInfo::new().finish("/data".to_string());
    assert_eq!(r.slot_range, [0, 0]);
    assert_eq!(r.total_size_human, "0 B");
}

#[test]
fn verdicts_as_text() {
    let good = file_outcome(verify_era(&era_file()), Some(true));
    assert!(good.valid);
    assert_eq!(
        good.to_string(),
        "\u{2713} valid\n  blocks:   2\n  state:    present\n  manifest: matches\n"
    );

    let mismatch = file_outcome(verify_era(&era_file()), Some(false));
    assert!(!mismatch.valid);
    assert_eq!(
        mismatch.to_string(),
        "\u{2717} invalid\n  blocks:   2\n  state:    present\n  manifest: MISMATCH\n"
    );

    let mut vr = verify_era(&[]);
    vr.warnings.push("a warning".to_string());
    let bad = file_outcome(vr, None);
    assert_eq!(
        bad.to_string(),
        "\u{2717} invalid\n  blocks:   0\n  state:    absent\n\nErrors:\n  - failed to read e2store reader: empty e2store file\n\n\
         Warnings:\n  - a warning\n"
    );
}

#[test]
fn verdict_on_a_directory() {
    let era = era_file();
    let mut sums = DirVerify::new();
    sums.add_file("a.era".to_string(), 1024, Some(&era));
    assert_eq!(
        sums.finish("/data".to_string()).to_string(),
        "Checked 1 files (1.00 KiB total)\n\u{2713} All 1 files passed verification\n"
    );

    let mut sums = DirVerify::new();
    sums.add_file("a.era".to_string(), 1024, Some(&era));
    sums.add_missing("b.era".to_string());
    sums.add_file("c.era".to_string(), 1024, None);
    sums.add_file("d.era".to_string(), 0, Some(&[]));
    let r = sums.finish("/data".to_string());
    assert_eq!(r.path, "/data");
    assert_eq!((r.checked, r.passed, r.failed), (3, 1, 3));
    assert_eq!(r.total_size, 2048);
    assert_eq!(
        r.to_string(),
        "Checked 3 files (2.00 KiB total)\n\u{2717} 3 files FAILED\n  - b.era\n  - c.era\n  - d.era\n"
    );
}

#[test]
fn block_in_brief() {
    let era = Block::Era(EraBlock {
        block: b"abc".to_vec(),
    });
    assert_eq!(
        make_block_summary(12, &era).to_string(),
        "slot=12        ERA  3 B  0xba7816bf8f01cfea"
    );
    let era1 = Block::Era1(Era1Block {
        header: b"abc".to_vec(),
        body: vec![1],
        receipts: vec![2],
        total_difficulty: U256::zero(),
    });
    assert_eq!(
        make_block_summary(123456789, &era1).to_string(),
        "slot=123456789 ERA1  3 B  0xba7816bf8f01cfea"
    );
}

#[test]
fn digest_prefixes() {
    assert_eq!(sha256_prefix(b"abc", 4), "ba7816bf");
    assert_eq!(sha256_prefix(b"", 0), "");
    let mut digest = [0u8; 32];
    digest[0] = 0xab;
    digest[1] = 0x01;
    assert_eq!(prefix_text(&digest, 3), "ab0100");
}

fn options(format: &str) -> StreamOptions {
    StreamOptions {
        limit: None,
        state: false,
        format: format.to_string(),
        output: None,
        output_dir: None,
    }
}

#[test]
fn streaming_summaries() {
    let mut opts = options("hex");
    opts.state = true;
    let (writes, result) = read_stream(&era_file(), &opts);
    assert!(writes.is_empty());
    let result = result.unwrap();
    // Blocks are numbered one by one from the first slot
    assert_eq!(result.blocks[0].slot, 8192);
    assert_eq!(result.blocks[1].slot, 8193);
    assert_eq!(result.state.as_ref().unwrap().size, 5);
    let state = sha256_prefix(b"state", 8);
    assert_eq!(
        result.to_string(),
        format!(
            "slot=8192      ERA  3 B  0xba7816bf8f01cfea\n\
             slot=8193      ERA  0 B  0xe3b0c44298fc1c14\n\
             state          5 B  0x{state}\n"
        )
    );
}

#[test]
fn streaming_with_a_limit() {
    let mut opts = options("json");
    opts.limit = Some(1);
    let (_, result) = read_stream(&era_file(), &opts);
    assert_eq!(result.unwrap().blocks.len(), 1);
    opts.limit = Some(0);
    let (_, result) = read_stream(&era_file(), &opts);
    assert!(result.unwrap().blocks.is_empty());

    // The limit is on blocks, whatever the format
    let mut opts = options("raw");
    opts.limit = Some(1);
    let (writes, result) = read_stream(&era_file(), &opts);
    assert_eq!(writes.len(), 1);
    assert!(result.unwrap().blocks.is_empty());
    opts.limit = Some(0);
    let (writes, _) = read_stream(&era_file(), &opts);
    assert!(writes.is_empty());
    opts.limit = Some(5);
    let (writes, _) = read_stream(&era_file(), &opts);
    assert_eq!(writes.len(), 2);
}

#[test]
fn streaming_bytes() {
    let mut opts = options("raw");
    opts.state = true;
    opts.output = Some("all.raw".to_string());
    let (writes, _) = read_stream(&era_file(), &opts);
    assert_eq!(writes.len(), 2);
    match &writes[0] {
        RawWrite::Append { path, data } => {
            assert_eq!(path, "all.raw");
            assert_eq!(data, b"abc");
        }
        _ => panic!("expected an append"),
    }

    opts.output_dir = Some("out".to_string());
    let (writes, _) = read_stream(&era_file(), &opts);
    let paths: Vec<String> = writes
        .iter()
        .map(|w| match w {
            RawWrite::File { path, .. } => path.clone(),
            _ => panic!("expected a file"),
        })
        .collect();
    assert_eq!(paths, vec!["out/8192.raw", "out/8193.raw", "out/state.raw"]);

    let (writes, _) = read_stream(&era1_file(), &options("raw"));
    match &writes[0] {
        RawWrite::Stdout { data } => assert_eq!(data, b"abc"),
        _ => panic!("expected standard output"),
    }
}

#[test]
fn blocks_are_extracted_to_a_directory_in_any_format() {
    for format in ["hex", "json", "raw"] {
        let mut opts = options(format);
        opts.output_dir = Some("blocks".to_string());
        let (writes, result) = read_stream(&era_file(), &opts);
        let files: Vec<(String, Vec<u8>)> = writes
            .into_iter()
            .map(|w| match w {
                RawWrite::File { path, data } => (path, data),
                _ => panic!("expected a file"),
            })
            .collect();
        assert_eq!(
            files,
            vec![
                ("blocks/8192.raw".to_string(), b"abc".to_vec()),
                ("blocks/8193.raw".to_string(), b"".to_vec()),
            ]
        );
        let summaries = if format == "raw" { 0 } else { 2 };
        assert_eq!(result.unwrap().blocks.len(), summaries);
    }
    let mut opts = options("hex");
    opts.output_dir = Some("blocks".to_string());
    opts.limit = Some(1);
    let (writes, result) = read_stream(&era_file(), &opts);
    assert_eq!(writes.len(), 1);
    assert_eq!(result.unwrap().blocks.len(), 1);
}

#[test]
fn streaming_stops_with_an_error() {
    let (writes, result) = read_stream(&[], &options("raw"));
    assert!(writes.is_empty());
    match result {
        Err(ReadError::Open(e)) => assert_eq!(
            e.to_string(),
            "e2store parse error: missing version entry as first entry"
        ),
        _ => panic!("expected an error"),
    }
    let (_, result) = read_stream(&era_file(), &options("xml"));
    match result {
        Err(e) => assert_eq!(e.to_string(), "unknown format: xml"),
        Ok(_) => panic!("expected an error"),
    }
    // The second block does not decompress
    let mut b = EraBuilder::new();
    b.add_block(1, compress(b"abc"));
    b.add_block(2, vec![1, 2, 3]);
    let mut data = Vec::new();
    b.build(&mut data).unwrap();
    let (writes, result) = read_stream(&data, &options("raw"));
    assert_eq!(writes.len(), 1);
    assert!(matches!(result, Err(ReadError::Read(_))));
}

#[test]
fn reading_a_slot() {
    let data = era_file();
    let (actions, end) = read_slot(&data, 8192, true, "hex");
    assert!(end.is_ok());
    assert_eq!(actions.len(), 2);
    match &actions[0] {
        SlotAction::Summary(s) => {
            assert_eq!(s.to_string(), "slot=8192      ERA  3 B  0xba7816bf8f01cfea")
        }
        _ => panic!("expected a summary"),
    }
    match &actions[1] {
        SlotAction::Note(s) => {
            assert_eq!(*s, format!("state: 5 B  0x{}", sha256_prefix(b"state", 8)))
        }
        _ => panic!("expected a note"),
    }

    let (actions, _) = read_slot(&data, 8194, true, "json");
    assert_eq!(actions.len(), 1);
    assert!(matches!(&actions[0], SlotAction::Json(s) if s.slot == 8194 && s.size == 0));

    let (actions, _) = read_slot(&data, 8192, true, "raw");
    assert!(matches!(&actions[0], SlotAction::Raw(d) if d == b"abc"));
    assert!(matches!(&actions[1], SlotAction::Raw(d) if d == b"state"));
}

#[test]
fn reading_a_slot_of_an_era1_file() {
    let (actions, end) = read_slot(&era1_file(), 5, true, "raw");
    assert!(end.is_ok());
    let mut all = b"abc".to_vec();
    all.extend_from_slice(&[1, 2, 3]);
    all.extend_from_slice(&[9; 32]);
    match &actions[0] {
        SlotAction::Raw(d) => assert_eq!(*d, all),
        _ => panic!("expected bytes"),
    }
    assert!(matches!(&actions[1], SlotAction::Note(s) if s == "no beacon state found in file"));
}

#[test]
fn reading_a_slot_that_is_not_there() {
    let data = era_file();
    let (actions, end) = read_slot(&data, 8193, false, "hex");
    assert!(actions.is_empty());
    match end {
        Err(e) => assert_eq!(e.to_string(), "slot 8193 is empty (skipped slot)"),
        Ok(()) => panic!("expected an error"),
    }
    let (_, end) = read_slot(&data, 1, false, "hex");
    assert!(matches!(end, Err(ReadError::Read(_))));
    let (_, end) = read_slot(&[], 1, false, "hex");
    assert!(matches!(end, Err(ReadError::Open(_))));
    let (actions, end) = read_slot(&data, 8192, true, "xml");
    assert!(actions.is_empty());
    assert!(matches!(end, Err(ReadError::UnknownFormat(f)) if f == "xml"));
}

#[test]
fn showing_given_blocks_and_states() {
    let b = Block::Era(EraBlock { block: vec![1, 2] });
    assert!(matches!(show_block(3, &b, "raw"), Ok(SlotAction::Raw(d)) if d == vec![1, 2]));
    assert!(matches!(
        show_block(3, &b, "other"),
        Err(ReadError::UnknownFormat(_))
    ));
    assert!(matches!(show_state(Some(vec![7]), "raw"), Some(SlotAction::Raw(d)) if d == vec![7]));
    assert!(show_state(Some(vec![7]), "json").is_none());
    assert!(matches!(show_state(None, "json"), Some(SlotAction::Note(_))));
}

#[test]
fn formats_by_name() {
    assert_eq!(ReadFormat::parse("hex"), ReadFormat::Hex);
    assert_eq!(ReadFormat::parse("json"), ReadFormat::Json);
    assert_eq!(ReadFormat::parse("raw"), ReadFormat::Raw);
    assert_eq!(ReadFormat::parse("Hex"), ReadFormat::Other);
}

#[test]
fn what_is_to_be_read() {
    let args = ReadArgs {
        path: "a.era".to_string(),
        slot: None,
        all: false,
        count: None,
        state: false,
        format: "hex".to_string(),
        output: None,
        output_dir: None,
    };
    assert_eq!(args.file_plan(), ReadPlan::Stream(None));
    assert_eq!(
        args.dir_plan(),
        Err("specify --slot, --all, or --count for directory input".to_string())
    );

    let mut counted = args.clone();
    counted.count = Some(3);
    assert_eq!(counted.file_plan(), ReadPlan::Stream(Some(3)));
    assert_eq!(counted.dir_plan(), Ok(ReadPlan::Stream(Some(3))));
    counted.all = true;
    assert_eq!(counted.file_plan(), ReadPlan::Stream(None));
    assert_eq!(counted.dir_plan(), Ok(ReadPlan::Stream(Some(3))));

    let mut by_slot = args;
    by_slot.slot = Some(9);
    assert_eq!(by_slot.file_plan(), ReadPlan::Slot(9));
    assert_eq!(by_slot.dir_plan(), Ok(ReadPlan::Slot(9)));
}

#[test]
fn build_report() {
    assert_eq!(
        BuildResult::new(2, true, 2048).to_string(),
        "Built 2 blocks\nState: included\nOutput: 2.00 KiB (2048)\n"
    );
    assert_eq!(
        BuildResult::new(0, false, 56).to_string(),
        "Built 0 blocks\nState: not included\nOutput: 56 B (56)\n"
    );
}

#[test]
fn convert_reports() {
    assert_eq!(
        reindexed_report(1024),
        "Reindexed successfully\n  output: 1.00 KiB (1024)\n"
    );
    assert_eq!(
        stripped_report(1024, 2048, "66.7"),
        "Stripped successfully\n  output: 1.00 KiB (1024)\n  saved:  2.00 KiB (66.7%)\n"
    );
    assert_eq!(split_report(3, "out"), "Split 3 blocks to out\n");
    assert_eq!(saved_size(10, 4), 6);
    assert_eq!(saved_size(4, 10), 0);
    assert_eq!(
        check_strip(&StripConfig::default()),
        Err("no strip options selected (use --strip-receipts, etc.)".to_string())
    );
    assert_eq!(check_strip(&StripConfig::receipts_only()), Ok(()));
}
