//! What holds of checksums and manifests.

use vstd::prelude::*;

use crate::error::ErrorView;
use crate::text;
use crate::verify::hash;

verus! {

/// The digits of a byte in hexadecimal notation have its value.
proof fn lemma_byte_digits(b: u8)
    ensures
        hash::hex_value(text::hex_byte(b)[0]) == b as int / 16,
        hash::hex_value(text::hex_byte(b)[1]) == b as int % 16,
{
}

/// Where the digits of a byte are in hexadecimal notation.
proof fn lemma_hex_digits(bytes: Seq<u8>)
    ensures
        text::hex_text(bytes).len() == 2 * bytes.len(),
        forall|i: int|
            0 <= i < bytes.len() ==> {
                &&& #[trigger] text::hex_text(bytes)[2 * i] == text::hex_byte(bytes[i])[0]
                &&& text::hex_text(bytes)[2 * i + 1] == text::hex_byte(bytes[i])[1]
            },
    decreases bytes.len(),
{
    if bytes.len() > 0 {
        let front = bytes.drop_last();
        lemma_hex_digits(front);
        assert forall|i: int| 0 <= i < bytes.len() implies {
            &&& #[trigger] text::hex_text(bytes)[2 * i] == text::hex_byte(bytes[i])[0]
            &&& text::hex_text(bytes)[2 * i + 1] == text::hex_byte(bytes[i])[1]
        } by {
            if i < front.len() {
                assert(text::hex_text(front)[2 * i] == text::hex_byte(front[i])[0]);
            }
        }
    }
}

/// A checksum can be read back from its hexadecimal notation.
pub proof fn hash_text_roundtrip(h: Seq<u8>)
    requires
        h.len() == 32,
    ensures
        hash::is_hash_text(text::hex_text(h)),
        hash::hash_of_text(text::hex_text(h)) == h,
{
    let s = text::hex_text(h);
    lemma_hex_digits(h);
    assert forall|i: int| 0 <= i < 64 implies hash::hex_value(#[trigger] s[i]) >= 0 by {
        let k = i / 2;
        lemma_byte_digits(h[k]);
        assert(s[2 * k] == text::hex_byte(h[k])[0]);
        assert(i == 2 * k || i == 2 * k + 1);
    }
    assert forall|i: int| 0 <= i < 32 implies #[trigger] hash::hash_of_text(s)[i] == h[i] by {
        lemma_byte_digits(h[i]);
        assert(s[2 * i] == text::hex_byte(h[i])[0]);
    }
    assert(hash::hash_of_text(s) =~= h);
}

/// Whether a manifest can hold this file name: it is not empty and has no white
/// space.
pub open spec fn manifest_name(name: Seq<char>) -> bool {
    name.len() > 0 && forall|i: int| 0 <= i < name.len() ==> !hash::is_space(#[trigger] name[i])
}

/// The line for a file: its checksum and its name.
pub open spec fn written_line(name: Seq<char>, h: Seq<u8>) -> Seq<char> {
    text::hex_text(h) + "  "@ + name
}

/// A manifest with a line for each file.
pub open spec fn written_manifest(files: Seq<(Seq<char>, Seq<u8>)>) -> Seq<char>
    decreases files.len(),
{
    if files.len() == 0 {
        Seq::empty()
    } else {
        written_manifest(files.drop_last()) + written_line(files.last().0, files.last().1) + "\n"@
    }
}

/// The checksums of files by name. Of several for a name the last counts.
pub open spec fn checksums(files: Seq<(Seq<char>, Seq<u8>)>) -> Map<Seq<char>, Seq<u8>>
    decreases files.len(),
{
    if files.len() == 0 {
        Map::empty()
    } else {
        checksums(files.drop_last()).insert(files.last().0, files.last().1)
    }
}

proof fn lemma_word_start(s: Seq<char>, i: int, end: int)
    requires
        0 <= i <= end < s.len(),
        forall|k: int| i <= k < end ==> hash::is_space(#[trigger] s[k]),
        !hash::is_space(s[end]),
    ensures
        hash::word_start(s, i) == end,
    decreases end - i,
{
    if i < end {
        lemma_word_start(s, i + 1, end);
    }
}

proof fn lemma_word_end(s: Seq<char>, i: int, end: int)
    requires
        0 <= i <= end <= s.len(),
        forall|k: int| i <= k < end ==> !hash::is_space(#[trigger] s[k]),
        end < s.len() ==> hash::is_space(s[end]),
    ensures
        hash::word_end(s, i) == end,
    decreases end - i,
{
    if i < end {
        lemma_word_end(s, i + 1, end);
    }
}

pub proof fn lemma_line_end_at(s: Seq<char>, i: int, end: int)
    requires
        0 <= i <= end < s.len(),
        forall|k: int| i <= k < end ==> #[trigger] s[k] != '\n',
        s[end] == '\n',
    ensures
        hash::line_end(s, i) == end,
    decreases end - i,
{
    if i < end {
        lemma_line_end_at(s, i + 1, end);
    }
}

/// Hexadecimal digits take one byte each.
proof fn lemma_digits_len(s: Seq<char>)
    requires
        forall|i: int| 0 <= i < s.len() ==> hash::hex_value(#[trigger] s[i]) >= 0,
    ensures
        hash::utf8_len(s) == s.len(),
    decreases s.len(),
{
    if s.len() > 0 {
        assert(hash::hex_value(s[s.len() - 1]) >= 0);
        assert forall|i: int| 0 <= i < s.drop_last().len() implies hash::hex_value(
            #[trigger] s.drop_last()[i],
        ) >= 0 by {
            assert(s.drop_last()[i] == s[i]);
        }
        lemma_digits_len(s.drop_last());
    }
}

/// A line that was written is read back.
proof fn lemma_written_line(name: Seq<char>, h: Seq<u8>)
    requires
        manifest_name(name),
        h.len() == 32,
    ensures
        hash::manifest_line(written_line(name, h)) == hash::ManifestLine::Entry(
            name,
            text::hex_text(h),
        ),
        forall|k: int|
            0 <= k < written_line(name, h).len() ==> #[trigger] written_line(name, h)[k] != '\n',
{
    let line = written_line(name, h);
    let digits = text::hex_text(h);
    reveal_strlit("  ");
    hash_text_roundtrip(h);
    lemma_digits_len(digits);
    assert forall|k: int| 0 <= k < line.len() implies (#[trigger] line[k] != '\n') && (k < 64
        ==> !hash::is_space(line[k]) && line[k] != '#') && (64 <= k < 66 ==> hash::is_space(line[k]))
        && (66 <= k ==> !hash::is_space(line[k])) by {
        if k < 64 {
            assert(line[k] == digits[k]);
            assert(hash::hex_value(digits[k]) >= 0);
        } else if k < 66 {
            assert(line[k] == ' ');
        } else {
            assert(line[k] == name[k - 66]);
        }
    }
    lemma_word_start(line, 0, 0);
    lemma_word_end(line, 0, 64);
    lemma_word_start(line, 64, 66);
    lemma_word_end(line, 66, line.len() as int);
    assert(line.subrange(0, 64) =~= digits);
    assert(line.subrange(66, line.len() as int) =~= name);
}

/// The lines for the first files come first.
proof fn lemma_manifest_prefix(files: Seq<(Seq<char>, Seq<u8>)>, n: int)
    requires
        0 <= n <= files.len(),
    ensures
        written_manifest(files.take(n)).len() <= written_manifest(files).len(),
        written_manifest(files).take(written_manifest(files.take(n)).len() as int)
            == written_manifest(files.take(n)),
    decreases files.len(),
{
    let part = written_manifest(files.take(n));
    let all = written_manifest(files);
    if n < files.len() {
        assert(files.drop_last().take(n) =~= files.take(n));
        lemma_manifest_prefix(files.drop_last(), n);
        let front = written_manifest(files.drop_last());
        assert(all.take(part.len() as int) =~= front.take(part.len() as int));
    } else {
        assert(files.take(n) =~= files);
        assert(all.take(all.len() as int) =~= all);
    }
}

/// Reading a manifest goes on to its end.
proof fn lemma_manifest_read(files: Seq<(Seq<char>, Seq<u8>)>, n: int)
    requires
        0 <= n <= files.len(),
        forall|i: int|
            0 <= i < files.len() ==> manifest_name((#[trigger] files[i]).0) && files[i].1.len() == 32,
    ensures
        hash::manifest_from(
            written_manifest(files),
            written_manifest(files.take(n)).len() as int,
            (n + 1) as nat,
            checksums(files.take(n)),
        ) == Ok::<Map<Seq<char>, Seq<u8>>, ErrorView>(checksums(files)),
    decreases files.len() - n,
{
    let s = written_manifest(files);
    let at = written_manifest(files.take(n)).len() as int;
    if n == files.len() {
        assert(files.take(n) =~= files);
    } else {
        let (name, h) = files[n];
        let line = written_line(name, h);
        let end = at + line.len();
        assert(files.take(n + 1).drop_last() =~= files.take(n));
        assert(files.take(n + 1).last() == files[n]);
        lemma_manifest_prefix(files, n + 1);
        reveal_strlit("\n");
        let next = written_manifest(files.take(n + 1));
        assert(next == written_manifest(files.take(n)) + line + "\n"@);
        assert(next.len() == end + 1);
        assert forall|k: int| at <= k <= end implies #[trigger] s[k] == next[k] by {
            assert(s.take(next.len() as int)[k] == next[k]);
        }
        lemma_written_line(name, h);
        assert forall|k: int| at <= k < end implies #[trigger] s[k] != '\n' by {
            assert(s[k] == line[k - at]);
        }
        assert(s[end] == '\n');
        lemma_line_end_at(s, at, end);
        assert(s.subrange(at, end) =~= line);
        hash_text_roundtrip(h);
        lemma_manifest_read(files, n + 1);
    }
}

/// A manifest with a line for each file gives each file its checksum: of
/// several lines for a name the last counts.
pub proof fn manifest_roundtrip(files: Seq<(Seq<char>, Seq<u8>)>)
    requires
        forall|i: int|
            0 <= i < files.len() ==> manifest_name((#[trigger] files[i]).0) && files[i].1.len() == 32,
    ensures
        hash::manifest_of(written_manifest(files)) == Ok::<Map<Seq<char>, Seq<u8>>, ErrorView>(
            checksums(files),
        ),
{
    assert(files.take(0) =~= Seq::empty());
    lemma_manifest_read(files, 0);
}

/// A manifest that was written for some files expects of each the checksum that
/// it was given, unless a later file has the same name.
pub proof fn manifest_expects(files: Seq<(Seq<char>, Seq<u8>)>, k: int)
    requires
        0 <= k < files.len(),
        forall|i: int|
            0 <= i < files.len() ==> manifest_name((#[trigger] files[i]).0) && files[i].1.len() == 32,
        forall|i: int| k < i < files.len() ==> (#[trigger] files[i]).0 != files[k].0,
    ensures
        hash::expected_hash_of(written_manifest(files), Some(files[k].0)) == Ok::<
            Seq<u8>,
            ErrorView,
        >(files[k].1),
{
    manifest_roundtrip(files);
    lemma_last_counts(files, k);
}

proof fn lemma_last_counts(files: Seq<(Seq<char>, Seq<u8>)>, k: int)
    requires
        0 <= k < files.len(),
        forall|i: int| k < i < files.len() ==> (#[trigger] files[i]).0 != files[k].0,
    ensures
        checksums(files).contains_key(files[k].0),
        checksums(files)[files[k].0] == files[k].1,
    decreases files.len(),
{
    if k < files.len() - 1 {
        let front = files.drop_last();
        assert forall|i: int| k < i < front.len() implies (#[trigger] front[i]).0 != front[k].0 by {
            assert(front[i] == files[i]);
        }
        lemma_last_counts(front, k);
        assert(files[files.len() - 1].0 != files[k].0);
    }
}

} // verus!
