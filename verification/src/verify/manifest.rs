//! What the lines of a manifest say.

use vstd::prelude::*;

use crate::error::ErrorView;
use crate::text;
use crate::verify::hash;
use crate::verify::hash::ManifestLine;
use crate::verify::laws;

verus! {

/// Which characters are white space: among the first 128 the space and the five
/// from the tab to the carriage return, and of the others those that Unicode
/// counts as such.
pub proof fn white_space(c: char)
    ensures
        (c as int) < 0x80 ==> (hash::is_space(c) <==> c == ' ' || '\t' <= c <= '\r'),
        (c as int) >= 0x80 ==> (hash::is_space(c) <==> c == '\u{85}' || c == '\u{a0}' || c
            == '\u{1680}' || '\u{2000}' <= c <= '\u{200a}' || c == '\u{2028}' || c == '\u{2029}' || c
            == '\u{202f}' || c == '\u{205f}' || c == '\u{3000}'),
{
}

/// Whether all characters are white space.
pub open spec fn blank(s: Seq<char>) -> bool {
    forall|i: int| 0 <= i < s.len() ==> hash::is_space(#[trigger] s[i])
}

/// Whether this is a word: there are characters, and none is white space.
pub open spec fn word(s: Seq<char>) -> bool {
    s.len() > 0 && forall|i: int| 0 <= i < s.len() ==> !hash::is_space(#[trigger] s[i])
}

/// Whether a character is a hexadecimal digit.
pub open spec fn hex_digit(c: char) -> bool {
    '0' <= c <= '9' || 'a' <= c <= 'f' || 'A' <= c <= 'F'
}

/// The value of each hexadecimal digit, which is the same in upper case and in
/// lower case.
pub proof fn digit_values(c: char)
    ensures
        hash::hex_value(c) >= 0 <==> hex_digit(c),
        hash::hex_value('0') == 0 && hash::hex_value('1') == 1 && hash::hex_value('2') == 2
            && hash::hex_value('3') == 3 && hash::hex_value('4') == 4,
        hash::hex_value('5') == 5 && hash::hex_value('6') == 6 && hash::hex_value('7') == 7
            && hash::hex_value('8') == 8 && hash::hex_value('9') == 9,
        hash::hex_value('a') == 10 && hash::hex_value('b') == 11 && hash::hex_value('c') == 12
            && hash::hex_value('d') == 13 && hash::hex_value('e') == 14 && hash::hex_value('f')
            == 15,
        hash::hex_value('A') == 10 && hash::hex_value('B') == 11 && hash::hex_value('C') == 12
            && hash::hex_value('D') == 13 && hash::hex_value('E') == 14 && hash::hex_value('F')
            == 15,
{
}

/// The bytes that a text of digits stands for: the first of two digits is the
/// higher half of a byte.
pub proof fn digits_make_bytes(s: Seq<char>, i: int)
    requires
        hash::is_hash_text(s),
        0 <= i < 32,
    ensures
        hash::hash_of_text(s).len() == 32,
        hash::hash_of_text(s)[i] / 16 == hash::hex_value(s[2 * i]),
        hash::hash_of_text(s)[i] % 16 == hash::hex_value(s[2 * i + 1]),
{
    assert(hash::hex_value(s[2 * i]) >= 0);
    assert(hash::hex_value(s[2 * i + 1]) >= 0);
    let h = hash::hex_value(s[2 * i]);
    let l = hash::hex_value(s[2 * i + 1]);
    assert(0 <= h < 16 && 0 <= l < 16);
    assert(hash::hash_of_text(s)[i] == (16 * h + l) as u8);
}

proof fn lemma_start_after(s: Seq<char>, i: int, end: int)
    requires
        0 <= i <= end <= s.len(),
        forall|k: int| i <= k < end ==> hash::is_space(#[trigger] s[k]),
        end < s.len() ==> !hash::is_space(s[end]),
    ensures
        hash::word_start(s, i) == end,
    decreases end - i,
{
    if i < end {
        lemma_start_after(s, i + 1, end);
    }
}

proof fn lemma_end_after(s: Seq<char>, i: int, end: int)
    requires
        0 <= i <= end <= s.len(),
        forall|k: int| i <= k < end ==> !hash::is_space(#[trigger] s[k]),
        end < s.len() ==> hash::is_space(s[end]),
    ensures
        hash::word_end(s, i) == end,
    decreases end - i,
{
    if i < end {
        lemma_end_after(s, i + 1, end);
    }
}

/// A line without a word says nothing, and neither does one whose first word
/// starts with a hash sign.
pub proof fn passed_lines(lead: Seq<char>, rest: Seq<char>)
    requires
        blank(lead),
        rest.len() > 0 ==> rest[0] == '#',
    ensures
        hash::manifest_line(lead + rest) == ManifestLine::Nothing,
{
    let line = lead + rest;
    let a = lead.len() as int;
    assert forall|k: int| 0 <= k < a implies hash::is_space(#[trigger] line[k]) by {
        assert(line[k] == lead[k]);
    }
    if rest.len() > 0 {
        assert(line[a] == rest[0]);
        white_space('#');
    }
    lemma_start_after(line, 0, a);
}

/// A line of one word alone lacks a name, unless it says nothing.
pub proof fn line_without_name(lead: Seq<char>, only: Seq<char>, trail: Seq<char>)
    requires
        blank(lead),
        word(only),
        only[0] != '#',
        blank(trail),
    ensures
        hash::manifest_line(lead + only + trail) == ManifestLine::Bad("missing filename"@),
{
    let line = lead + only + trail;
    let a = lead.len() as int;
    let b = a + only.len();
    assert forall|k: int| 0 <= k < a implies hash::is_space(#[trigger] line[k]) by {
        assert(line[k] == lead[k]);
    }
    assert forall|k: int| a <= k < b implies !hash::is_space(#[trigger] line[k]) by {
        assert(line[k] == only[k - a]);
    }
    assert forall|k: int| b <= k < line.len() implies hash::is_space(#[trigger] line[k]) by {
        assert(line[k] == trail[k - b]);
    }
    assert(line[a] == only[0]);
    lemma_start_after(line, 0, a);
    lemma_end_after(line, a, b);
    lemma_start_after(line, b, line.len() as int);
}

/// A line of two words or more gives the second the checksum that the first
/// stands for, whatever white space is around them and whatever follows. The
/// first word must be of 64 bytes, and these must be hexadecimal digits.
#[verifier::spinoff_prover]
pub proof fn line_with_name(
    lead: Seq<char>,
    digits: Seq<char>,
    gap: Seq<char>,
    name: Seq<char>,
    rest: Seq<char>,
)
    requires
        blank(lead),
        word(digits),
        digits[0] != '#',
        gap.len() > 0,
        blank(gap),
        word(name),
        rest.len() > 0 ==> hash::is_space(rest[0]),
    ensures
        ({
            let said = hash::manifest_line(lead + digits + gap + name + rest);
            &&& digits.len() == 64 && (forall|i: int| 0 <= i < 64 ==> hex_digit(#[trigger] digits[i]))
                ==> said == ManifestLine::Entry(name, digits)
            &&& digits.len() == 64 && (forall|i: int|
                0 <= i < 64 ==> (#[trigger] digits[i] as int) < 0x80) && (exists|i: int|
                0 <= i < 64 && !hex_digit(#[trigger] digits[i])) ==> said == ManifestLine::Bad(
                "invalid hex hash"@,
            )
            &&& digits.len() != 64 && (forall|i: int|
                0 <= i < digits.len() ==> (#[trigger] digits[i] as int) < 0x80) ==> said
                == ManifestLine::Bad("invalid SHA256 length"@)
        }),
{
    let line = lead + digits + gap + name + rest;
    let a = lead.len() as int;
    let b = a + digits.len();
    let c = b + gap.len();
    let d = c + name.len();
    assert forall|k: int| 0 <= k < a implies hash::is_space(#[trigger] line[k]) by {
        assert(line[k] == lead[k]);
    }
    assert forall|k: int| a <= k < b implies !hash::is_space(#[trigger] line[k]) by {
        assert(line[k] == digits[k - a]);
    }
    assert forall|k: int| b <= k < c implies hash::is_space(#[trigger] line[k]) by {
        assert(line[k] == gap[k - b]);
    }
    assert forall|k: int| c <= k < d implies !hash::is_space(#[trigger] line[k]) by {
        assert(line[k] == name[k - c]);
    }
    assert(line[a] == digits[0]);
    assert(line[b] == gap[0]);
    assert(line[c] == name[0]);
    if rest.len() > 0 {
        assert(line[d] == rest[0]);
    }
    lemma_start_after(line, 0, a);
    lemma_end_after(line, a, b);
    lemma_start_after(line, b, c);
    lemma_end_after(line, c, d);
    assert(line.subrange(a, b) =~= digits);
    assert(line.subrange(c, d) =~= name);
    if forall|i: int| 0 <= i < digits.len() ==> (#[trigger] digits[i] as int) < 0x80 {
        lemma_ascii_len(digits);
    }
    if digits.len() == 64 && (forall|i: int| 0 <= i < 64 ==> hex_digit(#[trigger] digits[i])) {
        assert forall|i: int| 0 <= i < 64 implies hash::hex_value(#[trigger] digits[i]) >= 0 by {
            digit_values(digits[i]);
        }
        assert forall|i: int| 0 <= i < digits.len() implies (#[trigger] digits[i] as int) < 0x80 by {
            assert(hex_digit(digits[i]));
        }
        lemma_ascii_len(digits);
    }
    if digits.len() == 64 && exists|i: int| 0 <= i < 64 && !hex_digit(#[trigger] digits[i]) {
        let i = choose|i: int| 0 <= i < 64 && !hex_digit(#[trigger] digits[i]);
        digit_values(digits[i]);
        assert(!(hash::hex_value(digits[i]) >= 0));
    }
}

proof fn lemma_ascii_len(s: Seq<char>)
    requires
        forall|i: int| 0 <= i < s.len() ==> (#[trigger] s[i] as int) < 0x80,
    ensures
        hash::utf8_len(s) == s.len(),
    decreases s.len(),
{
    if s.len() > 0 {
        assert((s[s.len() - 1] as int) < 0x80);
        assert forall|i: int| 0 <= i < s.drop_last().len() implies (#[trigger] s.drop_last()[i]
            as int) < 0x80 by {
            assert(s.drop_last()[i] == s[i]);
        }
        lemma_ascii_len(s.drop_last());
    }
}

/// Lines, each with a line feed after it.
pub open spec fn joined(lines: Seq<Seq<char>>) -> Seq<char>
    decreases lines.len(),
{
    if lines.len() == 0 {
        Seq::empty()
    } else {
        joined(lines.drop_last()) + lines.last() + "\n"@
    }
}

/// Whether none of the lines has a line feed in it.
pub open spec fn plain_lines(lines: Seq<Seq<char>>) -> bool {
    forall|i: int, k: int|
        0 <= i < lines.len() && 0 <= k < (#[trigger] lines[i]).len() ==> #[trigger] lines[i][k]
            != '\n'
}

proof fn lemma_joined_prefix(lines: Seq<Seq<char>>, n: int)
    requires
        0 <= n <= lines.len(),
    ensures
        joined(lines.take(n)).len() <= joined(lines).len(),
        joined(lines).take(joined(lines.take(n)).len() as int) == joined(lines.take(n)),
    decreases lines.len(),
{
    let part = joined(lines.take(n));
    let all = joined(lines);
    if n < lines.len() {
        assert(lines.drop_last().take(n) =~= lines.take(n));
        lemma_joined_prefix(lines.drop_last(), n);
        let front = joined(lines.drop_last());
        assert(all.take(part.len() as int) =~= front.take(part.len() as int));
    } else {
        assert(lines.take(n) =~= lines);
        assert(all.take(all.len() as int) =~= all);
    }
}

/// Where a line starts, it is read.
proof fn lemma_line_read(lines: Seq<Seq<char>>, n: int)
    requires
        0 <= n < lines.len(),
        plain_lines(lines),
    ensures
        ({
            let s = joined(lines);
            let at = joined(lines.take(n)).len() as int;
            let end = at + lines[n].len();
            &&& 0 <= at && end < s.len()
            &&& hash::line_end(s, at) == end
            &&& s.subrange(at, end) == lines[n]
            &&& joined(lines.take(n + 1)).len() == end + 1
        }),
{
    let s = joined(lines);
    let at = joined(lines.take(n)).len() as int;
    let line = lines[n];
    let end = at + line.len();
    assert(lines.take(n + 1).drop_last() =~= lines.take(n));
    assert(lines.take(n + 1).last() == line);
    lemma_joined_prefix(lines, n + 1);
    reveal_strlit("\n");
    let next = joined(lines.take(n + 1));
    assert(next == joined(lines.take(n)) + line + "\n"@);
    assert(next.len() == end + 1);
    assert forall|k: int| at <= k <= end implies #[trigger] s[k] == next[k] by {
        assert(s.take(next.len() as int)[k] == next[k]);
    }
    assert forall|k: int| at <= k < end implies #[trigger] s[k] != '\n' by {
        assert(s[k] == line[k - at]);
        assert(lines[n][k - at] != '\n');
    }
    assert(s[end] == '\n');
    laws::lemma_line_end_at(s, at, end);
    assert(s.subrange(at, end) =~= line);
}

/// What is read from the line `n` on.
proof fn lemma_manifest_step(
    lines: Seq<Seq<char>>,
    n: int,
    before: Map<Seq<char>, Seq<u8>>,
)
    requires
        0 <= n <= lines.len(),
        plain_lines(lines),
    ensures
        ({
            let s = joined(lines);
            let at = joined(lines.take(n)).len() as int;
            let read = hash::manifest_from(s, at, (n + 1) as nat, before);
            if n == lines.len() {
                read == Ok::<Map<Seq<char>, Seq<u8>>, ErrorView>(before)
            } else {
                let next = joined(lines.take(n + 1)).len() as int;
                match hash::manifest_line(lines[n]) {
                    ManifestLine::Nothing => read == hash::manifest_from(
                        s,
                        next,
                        (n + 2) as nat,
                        before,
                    ),
                    ManifestLine::Bad(what) => read == Err::<Map<Seq<char>, Seq<u8>>, ErrorView>(
                        hash::bad_line((n + 1) as nat, what),
                    ),
                    ManifestLine::Entry(name, digits) => read == hash::manifest_from(
                        s,
                        next,
                        (n + 2) as nat,
                        before.insert(name, hash::hash_of_text(digits)),
                    ),
                }
            }
        }),
{
    if n < lines.len() {
        lemma_line_read(lines, n);
    } else {
        assert(lines.take(n) =~= lines);
    }
}

/// A manifest with a bad line cannot be read, and the error names the first such
/// line by its number.
pub proof fn bad_line_named(lines: Seq<Seq<char>>, bad: int)
    requires
        plain_lines(lines),
        0 <= bad < lines.len(),
        hash::manifest_line(lines[bad]) is Bad,
        forall|i: int| 0 <= i < bad ==> !(hash::manifest_line(#[trigger] lines[i]) is Bad),
    ensures
        hash::manifest_of(joined(lines)) == Err::<Map<Seq<char>, Seq<u8>>, ErrorView>(
            hash::bad_manifest(
                "line "@ + text::dec((bad + 1) as nat) + ": "@ + hash::manifest_line(
                    lines[bad],
                )->Bad_0,
            ),
        ),
{
    assert(lines.take(0) =~= Seq::empty());
    lemma_bad_line(lines, 0, bad, Map::empty());
}

proof fn lemma_bad_line(
    lines: Seq<Seq<char>>,
    n: int,
    bad: int,
    before: Map<Seq<char>, Seq<u8>>,
)
    requires
        plain_lines(lines),
        0 <= n <= bad < lines.len(),
        hash::manifest_line(lines[bad]) is Bad,
        forall|i: int| 0 <= i < bad ==> !(hash::manifest_line(#[trigger] lines[i]) is Bad),
    ensures
        hash::manifest_from(
            joined(lines),
            joined(lines.take(n)).len() as int,
            (n + 1) as nat,
            before,
        ) == Err::<Map<Seq<char>, Seq<u8>>, ErrorView>(
            hash::bad_line((bad + 1) as nat, hash::manifest_line(lines[bad])->Bad_0),
        ),
    decreases bad - n,
{
    lemma_manifest_step(lines, n, before);
    if n < bad {
        assert(!(hash::manifest_line(lines[n]) is Bad));
        match hash::manifest_line(lines[n]) {
            ManifestLine::Nothing => lemma_bad_line(lines, n + 1, bad, before),
            ManifestLine::Entry(name, digits) => lemma_bad_line(
                lines,
                n + 1,
                bad,
                before.insert(name, hash::hash_of_text(digits)),
            ),
            _ => {},
        }
    }
}

/// Whether a line gives a checksum to a file of this name.
pub open spec fn line_names(line: Seq<char>, name: Seq<char>) -> bool {
    hash::manifest_line(line) matches ManifestLine::Entry(n, _) && n == name
}

/// A manifest without a bad line gives a checksum to each file that a line
/// names, and to no other: that of the last such line.
pub proof fn named_files_listed(lines: Seq<Seq<char>>, name: Seq<char>, at: int)
    requires
        plain_lines(lines),
        forall|i: int|
            0 <= i < lines.len() ==> !(hash::manifest_line(#[trigger] lines[i]) is Bad),
        0 <= at <= lines.len(),
        at < lines.len() ==> line_names(lines[at], name),
        forall|i: int| at < i < lines.len() ==> !line_names(#[trigger] lines[i], name),
        at == lines.len() ==> forall|i: int|
            0 <= i < lines.len() ==> !line_names(#[trigger] lines[i], name),
    ensures
        hash::manifest_of(joined(lines)) is Ok,
        ({
            let listed = hash::manifest_of(joined(lines))->Ok_0;
            if at < lines.len() {
                listed.contains_key(name) && listed[name] == hash::hash_of_text(
                    hash::manifest_line(lines[at])->Entry_1,
                )
            } else {
                !listed.contains_key(name)
            }
        }),
{
    assert(lines.take(0) =~= Seq::empty());
    lemma_listed(lines, 0, name, at, Map::empty());
}

proof fn lemma_listed(
    lines: Seq<Seq<char>>,
    n: int,
    name: Seq<char>,
    at: int,
    before: Map<Seq<char>, Seq<u8>>,
)
    requires
        plain_lines(lines),
        0 <= n <= lines.len(),
        forall|i: int|
            0 <= i < lines.len() ==> !(hash::manifest_line(#[trigger] lines[i]) is Bad),
        0 <= at <= lines.len(),
        at < lines.len() ==> line_names(lines[at], name),
        forall|i: int| at < i < lines.len() ==> !line_names(#[trigger] lines[i], name),
        at == lines.len() ==> forall|i: int|
            0 <= i < lines.len() ==> !line_names(#[trigger] lines[i], name),
        at == lines.len() ==> !before.contains_key(name),
        at < n ==> before.contains_key(name) && (at < lines.len() ==> before[name]
            == hash::hash_of_text(hash::manifest_line(lines[at])->Entry_1)),
    ensures
        ({
            let read = hash::manifest_from(
                joined(lines),
                joined(lines.take(n)).len() as int,
                (n + 1) as nat,
                before,
            );
            &&& read is Ok
            &&& if at < lines.len() {
                read->Ok_0.contains_key(name) && read->Ok_0[name] == hash::hash_of_text(
                    hash::manifest_line(lines[at])->Entry_1,
                )
            } else {
                !read->Ok_0.contains_key(name)
            }
        }),
    decreases lines.len() - n,
{
    lemma_manifest_step(lines, n, before);
    if n < lines.len() {
        assert(!(hash::manifest_line(lines[n]) is Bad));
        assert(at < n ==> !line_names(lines[n], name));
        assert(at == lines.len() ==> !line_names(lines[n], name));
        match hash::manifest_line(lines[n]) {
            ManifestLine::Nothing => {
                assert(n != at);
                lemma_listed(lines, n + 1, name, at, before);
            },
            ManifestLine::Entry(other, digits) => {
                let after = before.insert(other, hash::hash_of_text(digits));
                lemma_listed(lines, n + 1, name, at, after);
            },
            _ => {},
        }
    }
}

/// What a manifest that can be read expects of a file: the checksum that it
/// gives it. Without a name, or if no line names the file, that is an error.
pub proof fn file_expected(manifest: Seq<char>, name: Seq<char>)
    requires
        hash::manifest_of(manifest) is Ok,
    ensures
        ({
            let listed = hash::manifest_of(manifest)->Ok_0;
            &&& hash::expected_hash_of(manifest, Some(name)) is Ok <==> listed.contains_key(name)
            &&& listed.contains_key(name) ==> hash::expected_hash_of(manifest, Some(name))->Ok_0
                == listed[name]
            &&& !listed.contains_key(name) ==> hash::expected_hash_of(manifest, Some(name)) == Err::<
                Seq<u8>,
                ErrorView,
            >(hash::bad_manifest("file "@ + name + " not in manifest"@))
            &&& hash::expected_hash_of(manifest, None) == Err::<Seq<u8>, ErrorView>(
                hash::bad_manifest("invalid file name"@),
            )
        }),
{
}

/// How many bytes a character takes in UTF-8, by its number.
pub proof fn utf8_widths(c: char)
    ensures
        hash::utf8_len(seq![c]) == hash::utf8_width(c),
        (c as int) < 0x80 ==> hash::utf8_width(c) == 1,
        0x80 <= (c as int) < 0x800 ==> hash::utf8_width(c) == 2,
        0x800 <= (c as int) < 0x1_0000 ==> hash::utf8_width(c) == 3,
        0x1_0000 <= (c as int) ==> hash::utf8_width(c) == 4,
{
    reveal_with_fuel(hash::utf8_len, 2);
    assert(seq![c].drop_last() =~= Seq::empty());
}

/// The bytes of two texts one after the other add up.
pub proof fn utf8_adds_up(a: Seq<char>, b: Seq<char>)
    ensures
        hash::utf8_len(a + b) == hash::utf8_len(a) + hash::utf8_len(b),
    decreases b.len(),
{
    if b.len() > 0 {
        utf8_adds_up(a, b.drop_last());
        assert((a + b).drop_last() =~= a + b.drop_last());
        assert((a + b).last() == b.last());
    } else {
        assert(a + b =~= a);
    }
}

/// A first word of 64 bytes that is not all hexadecimal digits is no checksum,
/// and neither is one of another number of bytes.
#[verifier::spinoff_prover]
pub proof fn wrong_word_refused(
    lead: Seq<char>,
    first: Seq<char>,
    gap: Seq<char>,
    name: Seq<char>,
)
    requires
        blank(lead),
        word(first),
        first[0] != '#',
        gap.len() > 0,
        blank(gap),
        word(name),
        first.len() < 64,
    ensures
        ({
            let said = hash::manifest_line(lead + first + gap + name);
            &&& hash::utf8_len(first) != 64 ==> said == ManifestLine::Bad("invalid SHA256 length"@)
            &&& hash::utf8_len(first) == 64 ==> said == ManifestLine::Bad("invalid hex hash"@)
        }),
{
    let line = lead + first + gap + name;
    let a = lead.len() as int;
    let b = a + first.len();
    let c = b + gap.len();
    let d = line.len() as int;
    assert forall|k: int| 0 <= k < a implies hash::is_space(#[trigger] line[k]) by {
        assert(line[k] == lead[k]);
    }
    assert forall|k: int| a <= k < b implies !hash::is_space(#[trigger] line[k]) by {
        assert(line[k] == first[k - a]);
    }
    assert forall|k: int| b <= k < c implies hash::is_space(#[trigger] line[k]) by {
        assert(line[k] == gap[k - b]);
    }
    assert(line[a] == first[0]);
    assert(line[b] == gap[0]);
    assert(line[c] == name[0]);
    assert forall|k: int| c <= k < d implies !hash::is_space(#[trigger] line[k]) by {
        assert(line[k] == name[k - c]);
    }
    lemma_start_after(line, 0, a);
    lemma_end_after(line, a, b);
    lemma_start_after(line, b, c);
    lemma_end_after(line, c, d);
    assert(line.subrange(a, b) =~= first);
}

} // verus!
