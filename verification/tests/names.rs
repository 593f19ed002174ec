//! File names and directories of archives.

use brandon::cli::building::{check_state_options, slot_files, BuildError};
use brandon::cli::read::files_to_stream;
use brandon::fs::directory::{ArchiveDirectory, DirectoryEntry};
use brandon::fs::naming::{era_filename, sort_archive_filenames, ParsedArchiveName};

fn entry(name: &str) -> DirectoryEntry {
    DirectoryEntry {
        name: name.to_string(),
        path: format!("/data/{name}"),
    }
}

fn strings(names: &[&str]) -> Vec<String> {
    names.iter().map(|n| n.to_string()).collect()
}

#[test]
fn filename_is_padded_and_in_hexadecimal() {
    assert_eq!(
        era_filename("mainnet", 7, &[0x5e, 0xc1, 0xff, 0xb8]),
        "mainnet-00007-5ec1ffb8.era"
    );
    assert_eq!(
        era_filename("holesky", 123456, &[0, 1, 0x0a, 0xf0]),
        "holesky-123456-00010af0.era"
    );
}

#[test]
fn filename_reads_back() {
    for n in [0u64, 9, 99999, 100000, u64::MAX] {
        let name = era_filename("mainnet", n, &[1, 2, 3, 4]);
        let parsed = ParsedArchiveName::parse(&name).unwrap();
        assert_eq!(parsed.network, "mainnet");
        assert_eq!(parsed.era_number, n);
        assert_eq!(parsed.root_hex, "01020304");
        assert_eq!(parsed.extension, "era");
    }
}

#[test]
fn other_names_are_not_parsed() {
    assert!(ParsedArchiveName::parse("mainnet-00000-5ec1ffb8.txt").is_none());
    assert!(ParsedArchiveName::parse("mainnet-5ec1ffb8.era").is_none());
    assert!(ParsedArchiveName::parse("mainnet-x-5ec1ffb8.era").is_none());
    assert!(ParsedArchiveName::parse("mainnet--5ec1ffb8.era").is_none());
    assert!(ParsedArchiveName::parse("mainnet-18446744073709551616-5ec1ffb8.era").is_none());
    assert!(ParsedArchiveName::parse("").is_none());
}

#[test]
fn network_may_hold_a_dash() {
    let parsed = ParsedArchiveName::parse("my-net-+12-5ec1ffb8.era1").unwrap();
    assert_eq!(parsed.network, "my-net");
    assert_eq!(parsed.era_number, 12);
    assert_eq!(parsed.root_hex, "5ec1ffb8");
    assert_eq!(parsed.extension, "era1");
}

#[test]
fn sorting_goes_by_number_and_keeps_the_rest_last() {
    let mut files = strings(&[
        "mainnet-00010-aaaaaaaa.era",
        "README.md",
        "mainnet-00002-bbbbbbbb.era",
        "notes.txt",
        "mainnet-00002-cccccccc.era",
    ]);
    sort_archive_filenames(&mut files);
    assert_eq!(
        files,
        strings(&[
            "mainnet-00002-bbbbbbbb.era",
            "mainnet-00002-cccccccc.era",
            "mainnet-00010-aaaaaaaa.era",
            "README.md",
            "notes.txt",
        ])
    );
}

#[test]
fn other_names_follow_the_highest_number() {
    let highest = "mainnet-18446744073709551615-aaaaaaaa.era";
    let mut files = strings(&["zzz.txt", highest, "aaa.txt", "mainnet-00001-bbbbbbbb.era1"]);
    sort_archive_filenames(&mut files);
    assert_eq!(
        files,
        strings(&["mainnet-00001-bbbbbbbb.era1", highest, "zzz.txt", "aaa.txt"])
    );
}

#[test]
fn directory_lists_archives_by_number() {
    let entries = vec![
        entry("mainnet-00002-cccccccc.era"),
        entry("checksums.txt"),
        entry("mainnet-00000-aaaaaaaa.era1"),
        entry("mainnet-00001-bbbbbbbb.era1"),
    ];
    let dir = ArchiveDirectory::from_entries("/data".to_string(), &entries).unwrap();
    assert_eq!(dir.path, "/data");
    let numbers: Vec<u64> = dir.files.iter().map(|f| f.0).collect();
    assert_eq!(numbers, vec![0, 1, 2]);
    assert_eq!(dir.files[2].1, "/data/mainnet-00002-cccccccc.era");

    assert_eq!(
        dir.find_file_for_slot(0),
        Some("/data/mainnet-00000-aaaaaaaa.era1")
    );
    assert_eq!(
        dir.find_file_for_slot(8191),
        Some("/data/mainnet-00000-aaaaaaaa.era1")
    );
    assert_eq!(
        dir.find_file_for_slot(8192),
        Some("/data/mainnet-00001-bbbbbbbb.era1")
    );
    assert_eq!(dir.find_file_for_slot(3 * 8192), None);
}

#[test]
fn directory_without_archives() {
    let entries = vec![entry("checksums.txt")];
    assert!(ArchiveDirectory::from_entries("/data".to_string(), &entries).is_none());
    assert!(ArchiveDirectory::from_entries("/data".to_string(), &Vec::new()).is_none());
}

#[test]
fn only_the_first_file_is_streamed_with_a_count() {
    let entries = vec![
        entry("mainnet-00002-cccccccc.era"),
        entry("mainnet-00001-bbbbbbbb.era1"),
    ];
    let dir = ArchiveDirectory::from_entries("/data".to_string(), &entries).unwrap();
    assert_eq!(files_to_stream(&dir, Some(100)), 1);
    assert_eq!(files_to_stream(&dir, None), 2);
}

#[test]
fn slot_files_are_sorted_by_slot() {
    let entries = vec![
        entry("100.snappy"),
        entry("readme.txt"),
        entry("7.snappy"),
        entry("0020.snappy"),
    ];
    let files = slot_files(&entries).unwrap();
    assert_eq!(
        files,
        vec![
            (7, "/data/7.snappy".to_string()),
            (20, "/data/0020.snappy".to_string()),
            (100, "/data/100.snappy".to_string()),
        ]
    );
}

#[test]
fn slot_files_with_a_bad_name() {
    let entries = vec![entry("7.snappy"), entry("x7.snappy"), entry("y.snappy")];
    match slot_files(&entries) {
        Err(BuildError::BadName(name)) => assert_eq!(name, "x7.snappy"),
        _ => panic!("expected a bad name"),
    }
    assert!(matches!(
        slot_files(&vec![entry(".snappy")]),
        Err(BuildError::BadName(_))
    ));
}

#[test]
fn slot_files_without_files() {
    assert!(matches!(
        slot_files(&vec![entry("readme.txt")]),
        Err(BuildError::NoFiles)
    ));
}

#[test]
fn slot_files_with_one_slot_twice() {
    let entries = vec![
        entry("9.snappy"),
        entry("7.snappy"),
        entry("09.snappy"),
        entry("007.snappy"),
    ];
    match slot_files(&entries) {
        Err(BuildError::Duplicate(slot)) => assert_eq!(slot, 7),
        _ => panic!("expected a duplicate"),
    }
}

#[test]
fn state_and_state_slot_go_together() {
    assert_eq!(check_state_options(true, Some(8)), Ok(Some(8)));
    assert_eq!(check_state_options(false, None), Ok(None));
    let message = "both --state and --state-slot are required together".to_string();
    assert_eq!(check_state_options(true, None), Err(message.clone()));
    assert_eq!(check_state_options(false, Some(8)), Err(message));
}
