//! SHA256 checksums and manifests of them.
//!
//! A manifest has a line for each file: its checksum in hexadecimal notation
//! and its name, parted by white space. Empty lines and lines that start with
//! `#` do not count.

use sha2::Digest;
use vstd::hash_map::StringHashMap;
use vstd::prelude::*;

use crate::error::{E2StoreError, E2StoreErrorView, Error, ErrorView};
use crate::model;
use crate::text;

verus! {

/// The SHA256 digest of some bytes, as `sha2::Sha256` computes it.
pub uninterp spec fn sha256_digest(data: Seq<u8>) -> Seq<u8>;

/// `sha2::Sha256::digest`. Its result is a function of `data`, which
/// [`sha256_digest`] names.
#[verifier::external_body]
fn sha256(data: &[u8]) -> (digest: [u8; 32])
    ensures
        digest@ == sha256_digest(data@),
{
    sha2::Sha256::digest(data).into()
}

/// Compute the SHA256 hash of a file with this content.
pub fn sha256_file(content: &[u8]) -> (digest: [u8; 32])
    ensures
        digest@ == sha256_digest(content@),
{
    sha256(content)
}

/// The value of a hexadecimal digit of either case, or -1.
pub open spec fn hex_value(c: char) -> int {
    if '0' <= c <= '9' {
        c as int - '0' as int
    } else if 'a' <= c <= 'f' {
        c as int - 'a' as int + 10
    } else if 'A' <= c <= 'F' {
        c as int - 'A' as int + 10
    } else {
        -1
    }
}

/// Whether `s` is the hexadecimal notation of 32 bytes.
pub open spec fn is_hash_text(s: Seq<char>) -> bool {
    s.len() == 64 && forall|i: int| 0 <= i < 64 ==> hex_value(#[trigger] s[i]) >= 0
}

/// The bytes whose hexadecimal notation is `s`.
pub open spec fn hash_of_text(s: Seq<char>) -> Seq<u8> {
    Seq::new(32, |i: int| (16 * hex_value(s[2 * i]) + hex_value(s[2 * i + 1])) as u8)
}

/// `hex::decode_to_slice` into 32 bytes. It succeeds on 64 hexadecimal digits
/// of either case and on nothing else, and gives the byte of each pair of
/// digits.
#[verifier::external_body]
fn decode_hash(s: &str) -> (r: Option<[u8; 32]>)
    ensures
        r is Some == is_hash_text(s@),
        r matches Some(hash) ==> hash@ == hash_of_text(s@),
{
    let mut hash = [0u8; 32];
    match hex::decode_to_slice(s, &mut hash) {
        Ok(()) => Some(hash),
        Err(_) => None,
    }
}

/// `hex::encode`: the two lower-case hexadecimal digits of each byte.
#[verifier::external_body]
pub(crate) fn encode_hex(data: &[u8]) -> (s: String)
    ensures
        s@ == text::hex_text(data@),
{
    hex::encode(data)
}

/// Whether a character is white space.
pub open spec fn is_space(c: char) -> bool {
    let u = c as int;
    0x9 <= u <= 0xd || u == 0x20 || u == 0x85 || u == 0xa0 || u == 0x1680 || 0x2000 <= u <= 0x200a
        || u == 0x2028 || u == 0x2029 || u == 0x202f || u == 0x205f || u == 0x3000
}

/// How many bytes a character takes in UTF-8.
pub open spec fn utf8_width(c: char) -> nat {
    let u = c as int;
    if u < 0x80 {
        1
    } else if u < 0x800 {
        2
    } else if u < 0x1_0000 {
        3
    } else {
        4
    }
}

/// How many bytes a text takes in UTF-8.
pub open spec fn utf8_len(s: Seq<char>) -> nat
    decreases s.len(),
{
    if s.len() == 0 {
        0
    } else {
        utf8_len(s.drop_last()) + utf8_width(s.last())
    }
}

/// The first place from `i` on where `s` has no white space, or its end.
pub open spec fn word_start(s: Seq<char>, i: int) -> int
    decreases s.len() - i,
{
    if 0 <= i < s.len() && is_space(s[i]) {
        word_start(s, i + 1)
    } else {
        i
    }
}

/// The first place from `i` on where `s` has white space, or its end.
pub open spec fn word_end(s: Seq<char>, i: int) -> int
    decreases s.len() - i,
{
    if 0 <= i < s.len() && !is_space(s[i]) {
        word_end(s, i + 1)
    } else {
        i
    }
}

/// What a line of a manifest says.
pub enum ManifestLine {
    /// The line does not count.
    Nothing,
    /// The name of a file and its checksum in hexadecimal notation.
    Entry(Seq<char>, Seq<char>),
    /// What is wrong with the line.
    Bad(Seq<char>),
}

/// What a line of a manifest says.
pub open spec fn manifest_line(line: Seq<char>) -> ManifestLine {
    let a = word_start(line, 0);
    let b = word_end(line, a);
    let c = word_start(line, b);
    let d = word_end(line, c);
    let hash = line.subrange(a, b);
    if a >= line.len() || line[a] == '#' {
        ManifestLine::Nothing
    } else if c >= line.len() {
        ManifestLine::Bad("missing filename"@)
    } else if utf8_len(hash) != 64 {
        ManifestLine::Bad("invalid SHA256 length"@)
    } else if !is_hash_text(hash) {
        ManifestLine::Bad("invalid hex hash"@)
    } else {
        ManifestLine::Entry(line.subrange(c, d), hash)
    }
}

/// The first place from `i` on where `s` has a line feed, or its end.
pub open spec fn line_end(s: Seq<char>, i: int) -> int
    decreases s.len() - i,
{
    if 0 <= i < s.len() && s[i] != '\n' {
        line_end(s, i + 1)
    } else {
        i
    }
}

/// The error for a manifest.
pub open spec fn bad_manifest(message: Seq<char>) -> ErrorView {
    ErrorView::E2Store(E2StoreErrorView::InvalidManifest(message))
}

/// The error for a line of a manifest.
pub open spec fn bad_line(line_no: nat, what: Seq<char>) -> ErrorView {
    bad_manifest("line "@ + text::dec(line_no) + ": "@ + what)
}

/// What the lines of a manifest from place `i` on, of which the first has the
/// number `line_no`, add to the checksums of the lines before. Of several
/// lines for a file the last counts.
pub open spec fn manifest_from(
    s: Seq<char>,
    i: int,
    line_no: nat,
    before: Map<Seq<char>, Seq<u8>>,
) -> Result<Map<Seq<char>, Seq<u8>>, ErrorView>
    decreases s.len() + 1 - i,
{
    proof {
        lemma_line_end(s, i);
    }
    if i < 0 || i >= s.len() {
        Ok(before)
    } else {
        let end = line_end(s, i);
        match manifest_line(s.subrange(i, end)) {
            ManifestLine::Nothing => manifest_from(s, end + 1, line_no + 1, before),
            ManifestLine::Bad(what) => Err(bad_line(line_no, what)),
            ManifestLine::Entry(name, hash) => manifest_from(
                s,
                end + 1,
                line_no + 1,
                before.insert(name, hash_of_text(hash)),
            ),
        }
    }
}

/// The checksums of a manifest, by file name.
pub open spec fn manifest_of(content: Seq<char>) -> Result<
    Map<Seq<char>, Seq<u8>>,
    ErrorView,
> {
    manifest_from(content, 0, 1, Map::empty())
}

/// A line does not end before it starts.
pub proof fn lemma_line_end(s: Seq<char>, i: int)
    ensures
        i <= line_end(s, i),
        0 <= i <= s.len() ==> line_end(s, i) <= s.len(),
    decreases s.len() - i,
{
    if 0 <= i < s.len() && s[i] != '\n' {
        lemma_line_end(s, i + 1);
    }
}

/// Checksums by file name.
pub struct Manifest {
    hashes: StringHashMap<[u8; 32]>,
}

/// The bytes of each checksum.
pub open spec fn hash_bytes(m: Map<Seq<char>, [u8; 32]>) -> Map<Seq<char>, Seq<u8>> {
    m.map_values(|h: [u8; 32]| h@)
}

impl View for Manifest {
    type V = Map<Seq<char>, Seq<u8>>;

    closed spec fn view(&self) -> Map<Seq<char>, Seq<u8>> {
        hash_bytes(self.hashes@)
    }
}

impl Manifest {
    /// The checksum of a file.
    pub fn get(&self, name: &str) -> (r: Option<[u8; 32]>)
        ensures
            match r {
                Some(hash) => self@.contains_key(name@) && self@[name@] == hash@,
                None => !self@.contains_key(name@),
            },
    {
        match self.hashes.get(name) {
            Some(hash) => Some(*hash),
            None => None,
        }
    }
}

fn space(c: char) -> (r: bool)
    ensures
        r == is_space(c),
{
    let u: u32 = c as u32;
    (0x9 <= u && u <= 0xd) || u == 0x20 || u == 0x85 || u == 0xa0 || u == 0x1680 || (0x2000 <= u
        && u <= 0x200a) || u == 0x2028 || u == 0x2029 || u == 0x202f || u == 0x205f || u == 0x3000
}

/// Find the start or the end of a word in the line `s[from..to]`.
fn skip_chars(s: &Vec<char>, from: usize, to: usize, i: usize, spaces: bool) -> (r: usize)
    requires
        from <= i <= to <= s@.len(),
    ensures
        i <= r <= to,
        spaces ==> r - from == word_start(s@.subrange(from as int, to as int), i - from),
        !spaces ==> r - from == word_end(s@.subrange(from as int, to as int), i - from),
{
    let ghost line = s@.subrange(from as int, to as int);
    let mut r: usize = i;
    while r < to && space(s[r]) == spaces
        invariant
            from <= i <= r <= to <= s@.len(),
            line == s@.subrange(from as int, to as int),
            spaces ==> word_start(line, i - from) == word_start(line, r - from),
            !spaces ==> word_end(line, i - from) == word_end(line, r - from),
        decreases to - r,
    {
        assert(line[r - from] == s@[r as int]);
        r = r + 1;
    }
    proof {
        if r < to {
            assert(line[r - from] == s@[r as int]);
        }
    }
    r
}

fn char_width(c: char) -> (w: usize)
    ensures
        w == utf8_width(c),
{
    let u: u32 = c as u32;
    if u < 0x80 {
        1
    } else if u < 0x800 {
        2
    } else if u < 0x1_0000 {
        3
    } else {
        4
    }
}

/// How many bytes `s[from..to]` takes in UTF-8, if they are at most 64.
fn short_utf8_len(s: &Vec<char>, from: usize, to: usize) -> (r: Option<usize>)
    requires
        from <= to <= s@.len(),
    ensures
        match r {
            Some(n) => utf8_len(s@.subrange(from as int, to as int)) == n,
            None => utf8_len(s@.subrange(from as int, to as int)) > 64,
        },
{
    let ghost part = s@.subrange(from as int, to as int);
    let mut n: usize = 0;
    let mut i: usize = from;
    assert(part.take(0) =~= Seq::empty());
    while i < to
        invariant
            from <= i <= to <= s@.len(),
            part == s@.subrange(from as int, to as int),
            n <= 64,
            n == utf8_len(part.take(i - from)),
        decreases to - i,
    {
        let w: usize = char_width(s[i]);
        proof {
            let next = part.take(i - from + 1);
            assert(next.drop_last() =~= part.take(i - from));
            assert(next.last() == s@[i as int]);
        }
        n = n + w;
        if n > 64 {
            proof {
                lemma_utf8_grows(part, i - from + 1);
            }
            return None;
        }
        i = i + 1;
    }
    assert(part.take(i - from) =~= part);
    Some(n)
}

proof fn lemma_utf8_grows(s: Seq<char>, n: int)
    requires
        0 <= n <= s.len(),
    ensures
        utf8_len(s.take(n)) <= utf8_len(s),
    decreases s.len(),
{
    if n < s.len() {
        assert(s.drop_last().take(n) =~= s.take(n));
        lemma_utf8_grows(s.drop_last(), n);
    } else {
        assert(s.take(n) =~= s);
    }
}

/// A parsed line of a manifest.
enum ParsedLine {
    Nothing,
    Entry(String, [u8; 32]),
    Bad(&'static str),
}

impl ParsedLine {
    /// Whether this is what the line says.
    spec fn says(self, line: ManifestLine) -> bool {
        match self {
            ParsedLine::Nothing => line is Nothing,
            ParsedLine::Entry(name, hash) => line matches ManifestLine::Entry(n, h) && n == name@
                && hash@ == hash_of_text(h),
            ParsedLine::Bad(what) => line matches ManifestLine::Bad(w) && w == what@,
        }
    }
}

/// Parse the line `s[from..to]`.
fn parse_line(s: &Vec<char>, from: usize, to: usize) -> (r: ParsedLine)
    requires
        from <= to <= s@.len(),
    ensures
        r.says(manifest_line(s@.subrange(from as int, to as int))),
{
    let ghost line = s@.subrange(from as int, to as int);
    let a: usize = skip_chars(s, from, to, from, true);
    if a == to {
        return ParsedLine::Nothing;
    }
    assert(line[a - from] == s@[a as int]);
    if s[a] == '#' {
        return ParsedLine::Nothing;
    }
    let b: usize = skip_chars(s, from, to, a, false);
    let c: usize = skip_chars(s, from, to, b, true);
    if c == to {
        return ParsedLine::Bad("missing filename");
    }
    let d: usize = skip_chars(s, from, to, c, false);
    let hash_str = text::string_of(s, a, b);
    proof {
        assert(line.subrange(a - from, b - from) =~= s@.subrange(a as int, b as int));
        assert(line.subrange(c - from, d - from) =~= s@.subrange(c as int, d as int));
    }
    match short_utf8_len(s, a, b) {
        Some(64) => {},
        _ => {
            return ParsedLine::Bad("invalid SHA256 length");
        },
    }
    match decode_hash(hash_str.as_str()) {
        None => ParsedLine::Bad("invalid hex hash"),
        Some(hash) => ParsedLine::Entry(text::string_of(s, c, d), hash),
    }
}

/// Parse a manifest.
pub fn parse_manifest(content: &str) -> (r: Result<Manifest, Error>)
    ensures
        model::result_view(r) == manifest_of(content@),
{
    let s = text::chars_of(content);
    let mut map: StringHashMap<[u8; 32]> = StringHashMap::new();
    let mut i: usize = 0;
    let mut lines: u64 = 0;
    assert(hash_bytes(map@) =~= Map::empty());
    while i < s.len()
        invariant
            s@ == content@,
            i <= s@.len(),
            lines <= i,
            manifest_of(s@) == manifest_from(s@, i as int, (lines + 1) as nat, hash_bytes(map@)),
        decreases s@.len() - i,
    {
        let mut end: usize = i;
        while end < s.len() && s[end] != '\n'
            invariant
                i <= end <= s@.len(),
                line_end(s@, i as int) == line_end(s@, end as int),
            decreases s@.len() - end,
        {
            end = end + 1;
        }
        let ghost before = hash_bytes(map@);
        match parse_line(&s, i, end) {
            ParsedLine::Nothing => {},
            ParsedLine::Bad(what) => {
                let mut message = "line ".to_owned();
                text::push_dec(&mut message, lines + 1);
                message.append(": ");
                message.append(what);
                return Err(Error::E2Store(E2StoreError::InvalidManifest(message)));
            },
            ParsedLine::Entry(name, hash) => {
                let ghost old_map = map@;
                map.insert(name, hash);
                assert(hash_bytes(map@) =~= before.insert(name@, hash@));
            },
        }
        if end == s.len() {
            let m = Manifest { hashes: map };
            proof {
                reveal_with_fuel(manifest_from, 2);
            }
            return Ok(m);
        }
        i = end + 1;
        lines = lines + 1;
    }
    Ok(Manifest { hashes: map })
}

/// What a manifest says of a file: its checksum.
pub open spec fn expected_hash_of(
    manifest: Seq<char>,
    file_name: Option<Seq<char>>,
) -> Result<Seq<u8>, ErrorView> {
    match manifest_of(manifest) {
        Err(e) => Err(e),
        Ok(hashes) => match file_name {
            None => Err(bad_manifest("invalid file name"@)),
            Some(name) => if hashes.contains_key(name) {
                Ok(hashes[name])
            } else {
                Err(bad_manifest("file "@ + name + " not in manifest"@))
            },
        },
    }
}

/// Look up the checksum of a file in a manifest. A path without a file name
/// has none.
pub fn expected_hash(manifest: &str, file_name: &Option<String>) -> (r: Result<[u8; 32], Error>)
    ensures
        match r {
            Ok(hash) => expected_hash_of(manifest@, model::option_view(*file_name)) == Ok::<
                Seq<u8>,
                ErrorView,
            >(hash@),
            Err(e) => expected_hash_of(manifest@, model::option_view(*file_name)) == Err::<
                Seq<u8>,
                ErrorView,
            >(e@),
        },
{
    let hashes = match parse_manifest(manifest) {
        Ok(hashes) => hashes,
        Err(e) => {
            return Err(e);
        },
    };
    let name = match file_name {
        Some(name) => name,
        None => {
            return Err(
                Error::E2Store(E2StoreError::InvalidManifest("invalid file name".to_owned())),
            );
        },
    };
    match hashes.get(name.as_str()) {
        Some(hash) => Ok(hash),
        None => {
            let mut message = "file ".to_owned();
            message.append(name.as_str());
            message.append(" not in manifest");
            Err(Error::E2Store(E2StoreError::InvalidManifest(message)))
        },
    }
}

/// Whether two checksums are the same.
pub fn same_hash(a: &[u8; 32], b: &[u8; 32]) -> (r: bool)
    ensures
        r == (a@ == b@),
{
    let mut i: usize = 0;
    while i < 32
        invariant
            i <= 32,
            forall|k: int| 0 <= k < i ==> #[trigger] a@[k] == b@[k],
        decreases 32 - i,
    {
        if a[i] != b[i] {
            assert(a@[i as int] != b@[i as int]);
            return false;
        }
        i = i + 1;
    }
    assert(a@ =~= b@);
    true
}

/// Whether the content of a file has the checksum that a manifest gives it.
pub fn verify_file_against_manifest(
    file_name: &Option<String>,
    content: &[u8],
    manifest: &str,
) -> (r: Result<bool, Error>)
    ensures
        model::outcome(r) == (match expected_hash_of(manifest@, model::option_view(*file_name)) {
            Ok(hash) => Ok::<bool, ErrorView>(sha256_digest(content@) == hash),
            Err(e) => Err(e),
        }),
{
    match expected_hash(manifest, file_name) {
        Ok(hash) => {
            let actual: [u8; 32] = sha256_file(content);
            Ok(same_hash(&actual, &hash))
        },
        Err(e) => Err(e),
    }
}

} // verus!
