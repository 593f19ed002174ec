//! Checksums and manifests.

use brandon::error::Error;
use brandon::verify::hash::{
    expected_hash, parse_manifest, same_hash, sha256_file, verify_file_against_manifest,
};

const ABC: &str = "ba7816bf8f01cfea414140de5dae2223b00361a396177a9cb410ff61f20015ad";
const EMPTY: &str = "e3b0c44298fc1c149afbf4c8996fb92427ae41e4649b934ca495991b7852b855";

fn message<T>(r: Result<T, Error>) -> String {
    match r {
        Ok(_) => panic!("expected an error"),
        Err(e) => e.to_string(),
    }
}

fn name(s: &str) -> Option<String> {
    Some(s.to_string())
}

#[test]
fn digests_of_known_inputs() {
    assert_eq!(hex::encode(sha256_file(b"abc")), ABC);
    assert_eq!(hex::encode(sha256_file(b"")), EMPTY);
}

#[test]
fn manifest_lines_are_read() {
    let content = format!(
        "# checksums\n\n{ABC}  abc.era\r\n   {EMPTY}\tempty.era trailing words\n{}  upper.era",
        ABC.to_uppercase()
    );
    let manifest = parse_manifest(&content).unwrap();
    assert_eq!(manifest.get("abc.era"), Some(sha256_file(b"abc")));
    assert_eq!(manifest.get("empty.era"), Some(sha256_file(b"")));
    assert_eq!(manifest.get("upper.era"), Some(sha256_file(b"abc")));
    assert_eq!(manifest.get("other.era"), None);
    assert_eq!(manifest.get("trailing"), None);
}

#[test]
fn last_line_of_a_name_counts() {
    let content = format!("{ABC} a.era\n{EMPTY} a.era\n");
    let manifest = parse_manifest(&content).unwrap();
    assert_eq!(manifest.get("a.era"), Some(sha256_file(b"")));
}

#[test]
fn manifest_errors_name_the_line() {
    assert_eq!(
        message(parse_manifest(&format!("# comment\n{ABC}\n"))),
        "e2store parse error: invalid manifest: line 2: missing filename"
    );
    assert_eq!(
        message(parse_manifest("abcd a.era")),
        "e2store parse error: invalid manifest: line 1: invalid SHA256 length"
    );
    assert_eq!(
        message(parse_manifest(&format!("\n\n{} a.era", "g".repeat(64)))),
        "e2store parse error: invalid manifest: line 3: invalid hex hash"
    );
}

#[test]
fn length_of_a_checksum_is_in_bytes() {
    // 32 characters of two bytes each
    assert_eq!(
        message(parse_manifest(&format!("{} a.era", "\u{e4}".repeat(32)))),
        "e2store parse error: invalid manifest: line 1: invalid hex hash"
    );
    assert_eq!(
        message(parse_manifest(&format!("{} a.era", "\u{e4}".repeat(64)))),
        "e2store parse error: invalid manifest: line 1: invalid SHA256 length"
    );
}

#[test]
fn file_against_manifest() {
    let manifest = format!("{ABC}  abc.era\n");
    assert!(matches!(
        verify_file_against_manifest(&name("abc.era"), b"abc", &manifest),
        Ok(true)
    ));
    assert!(matches!(
        verify_file_against_manifest(&name("abc.era"), b"abd", &manifest),
        Ok(false)
    ));
    assert_eq!(
        message(verify_file_against_manifest(&name("x.era"), b"abc", &manifest)),
        "e2store parse error: invalid manifest: file x.era not in manifest"
    );
    assert_eq!(
        message(verify_file_against_manifest(&None, b"abc", &manifest)),
        "e2store parse error: invalid manifest: invalid file name"
    );
    assert_eq!(
        message(verify_file_against_manifest(&name("abc.era"), b"abc", "abc")),
        "e2store parse error: invalid manifest: line 1: missing filename"
    );
}

#[test]
fn expected_hash_of_a_file() {
    let manifest = format!("{EMPTY}  a.era\n");
    let hash = expected_hash(&manifest, &name("a.era")).unwrap();
    assert_eq!(hex::encode(hash), EMPTY);
    let mut other = hash;
    other[31] ^= 1;
    assert!(same_hash(&hash, &hash));
    assert!(!same_hash(&hash, &other));
}
