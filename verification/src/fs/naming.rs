//! ERA file naming conventions.
//!
//! Format: `{network}-{era_number:05}-{root_prefix}.{ext}`
//!
//! Where `root_prefix` is the first 4 bytes (8 hex chars) of the era's
//! historical root, lower-case hex. Extension is `.era` or `.era1`.

use vstd::prelude::*;

use crate::model;
use crate::text;

verus! {

/// Supported archive extensions.
pub const ARCHIVE_EXTENSIONS: [&'static str; 2] = ["era", "era1"];

/// The name of an ERA file.
pub open spec fn era_name(network: Seq<char>, era_number: u64, root_prefix: [u8; 4]) -> Seq<char> {
    network + "-"@ + text::dec_padded(era_number as nat, 5) + "-"@ + text::hex_byte(root_prefix[0])
        + text::hex_byte(root_prefix[1]) + text::hex_byte(root_prefix[2]) + text::hex_byte(
        root_prefix[3],
    ) + ".era"@
}

/// Construct an ERA filename.
pub fn era_filename(network: &str, era_number: u64, root_prefix: &[u8; 4]) -> (name: String)
    ensures
        name@ == era_name(network@, era_number, *root_prefix),
{
    let mut name = network.to_owned();
    name.append("-");
    text::push_dec_padded(&mut name, era_number, 5);
    name.append("-");
    text::push_hex_byte(&mut name, root_prefix[0]);
    text::push_hex_byte(&mut name, root_prefix[1]);
    text::push_hex_byte(&mut name, root_prefix[2]);
    text::push_hex_byte(&mut name, root_prefix[3]);
    name.append(".era");
    name
}

/// Parsed archive filename components.
#[derive(Debug, Clone)]
pub struct ParsedArchiveName {
    pub network: String,
    pub era_number: u64,
    pub root_hex: String,
    pub extension: String,
}

/// The model of [`ParsedArchiveName`].
#[verifier::ext_equal]
pub struct ParsedArchiveNameView {
    pub network: Seq<char>,
    pub era_number: u64,
    pub root_hex: Seq<char>,
    pub extension: Seq<char>,
}

impl View for ParsedArchiveName {
    type V = ParsedArchiveNameView;

    open spec fn view(&self) -> ParsedArchiveNameView {
        ParsedArchiveNameView {
            network: self.network@,
            era_number: self.era_number,
            root_hex: self.root_hex@,
            extension: self.extension@,
        }
    }
}

/// Whether `s` ends with `tail`.
pub open spec fn ends_with(s: Seq<char>, tail: Seq<char>) -> bool {
    s.len() >= tail.len() && s.skip(s.len() - tail.len()) == tail
}

/// Where the last `-` among the first `n` characters of `s` is, or -1.
pub open spec fn last_dash(s: Seq<char>, n: int) -> int
    decreases n,
{
    if n <= 0 {
        -1
    } else if s[n - 1] == '-' {
        n - 1
    } else {
        last_dash(s, n - 1)
    }
}

/// Whether all characters are decimal digits.
pub open spec fn all_digits(s: Seq<char>) -> bool {
    forall|i: int| 0 <= i < s.len() ==> '0' <= #[trigger] s[i] <= '9'
}

/// The number that decimal digits stand for.
pub open spec fn digits_value(s: Seq<char>) -> nat
    decreases s.len(),
{
    if s.len() == 0 {
        0
    } else {
        10 * digits_value(s.drop_last()) + (s.last() as int - '0' as int) as nat
    }
}

/// The number that a decimal numeral stands for, if it is one and in range. A
/// plus sign may precede the digits.
pub open spec fn numeral(s: Seq<char>) -> Option<u64> {
    let digits = if s.len() > 0 && s[0] == '+' {
        s.skip(1)
    } else {
        s
    };
    if digits.len() > 0 && all_digits(digits) && digits_value(digits) <= u64::MAX {
        Some(digits_value(digits) as u64)
    } else {
        None
    }
}

/// What the name of a file without its extension tells: the network, the era
/// number and the root, parted by the last two dashes.
pub open spec fn parsed_stem(stem: Seq<char>, extension: Seq<char>) -> Option<
    ParsedArchiveNameView,
> {
    let second = last_dash(stem, stem.len() as int);
    let first = last_dash(stem, second);
    if second < 0 || first < 0 {
        None
    } else {
        match numeral(stem.subrange(first + 1, second)) {
            None => None,
            Some(era_number) => Some(
                ParsedArchiveNameView {
                    network: stem.take(first),
                    era_number,
                    root_hex: stem.skip(second + 1),
                    extension,
                },
            ),
        }
    }
}

/// What the name of an archive file tells.
pub open spec fn parsed_name(name: Seq<char>) -> Option<ParsedArchiveNameView> {
    if ends_with(name, ".era"@) {
        parsed_stem(name.take(name.len() - 4), "era"@)
    } else if ends_with(name, ".era1"@) {
        parsed_stem(name.take(name.len() - 5), "era1"@)
    } else {
        None
    }
}

/// Find the last `-` among the first `n` characters.
fn find_last_dash(s: &Vec<char>, n: usize) -> (r: Option<usize>)
    requires
        n <= s@.len(),
    ensures
        match r {
            Some(i) => last_dash(s@, n as int) == i && i < n,
            None => last_dash(s@, n as int) == -1,
        },
{
    let mut i: usize = n;
    while i > 0
        invariant
            i <= n <= s@.len(),
            last_dash(s@, n as int) == last_dash(s@, i as int),
        decreases i,
    {
        if s[i - 1] == '-' {
            return Some(i - 1);
        }
        i = i - 1;
    }
    None
}

/// The number that a decimal numeral `s[from..to]` stands for.
pub fn parse_numeral(s: &Vec<char>, from: usize, to: usize) -> (r: Option<u64>)
    requires
        from <= to <= s@.len(),
    ensures
        r == numeral(s@.subrange(from as int, to as int)),
{
    let ghost part = s@.subrange(from as int, to as int);
    let start: usize = if from < to && s[from] == '+' {
        from + 1
    } else {
        from
    };
    let ghost digits = s@.subrange(start as int, to as int);
    assert(digits =~= if part.len() > 0 && part[0] == '+' {
        part.skip(1)
    } else {
        part
    });
    if start == to {
        return None;
    }
    let mut value: u64 = 0;
    let mut i: usize = start;
    assert(digits.take(0) =~= Seq::empty());
    while i < to
        invariant
            from <= start <= i <= to <= s@.len(),
            part == s@.subrange(from as int, to as int),
            digits == s@.subrange(start as int, to as int),
            forall|k: int| 0 <= k < i - start ==> '0' <= #[trigger] digits[k] <= '9',
            value == digits_value(digits.take(i - start)),
            numeral(part) == if digits.len() > 0 && all_digits(digits) && digits_value(digits)
                <= u64::MAX {
                Some(digits_value(digits) as u64)
            } else {
                None
            },
        decreases to - i,
    {
        let c: char = s[i];
        assert(digits[i - start] == c);
        if c < '0' || c > '9' {
            return None;
        }
        let d: u64 = (c as u32 - '0' as u32) as u64;
        let ghost next = digits.take(i - start + 1);
        proof {
            assert(next.drop_last() =~= digits.take(i - start));
            assert(digits_value(next) == 10 * value + d);
        }
        if value > 0x1999_9999_9999_9999 || (value == 0x1999_9999_9999_9999 && d > 5) {
            proof {
                lemma_digits_grow(digits, i - start + 1);
            }
            return None;
        }
        value = 10 * value + d;
        i = i + 1;
    }
    assert(digits.take(i - start) =~= digits);
    Some(value)
}

/// More digits make no smaller number.
proof fn lemma_digits_grow(digits: Seq<char>, n: int)
    requires
        0 <= n <= digits.len(),
    ensures
        digits_value(digits.take(n)) <= digits_value(digits),
    decreases digits.len(),
{
    if n < digits.len() {
        let front = digits.drop_last();
        assert(front.take(n) =~= digits.take(n));
        lemma_digits_grow(front, n);
    } else {
        assert(digits.take(n) =~= digits);
    }
}

/// Whether `s` ends with `tail`.
pub fn tail_is(s: &Vec<char>, tail: &Vec<char>) -> (r: bool)
    ensures
        r == ends_with(s@, tail@),
{
    if s.len() < tail.len() {
        return false;
    }
    let base: usize = s.len() - tail.len();
    let mut i: usize = 0;
    while i < tail.len()
        invariant
            i <= tail@.len(),
            base == s@.len() - tail@.len(),
            forall|k: int| 0 <= k < i ==> s@[base + k] == #[trigger] tail@[k],
        decreases tail@.len() - i,
    {
        assert(base + i < s.len());
        if s[base + i] != tail[i] {
            assert(s@.skip(base as int)[i as int] != tail@[i as int]);
            return false;
        }
        i = i + 1;
    }
    assert(s@.skip(base as int) =~= tail@);
    true
}

fn parse_stem(name: &Vec<char>, len: usize, extension: &str) -> (r: Option<ParsedArchiveName>)
    requires
        len <= name@.len(),
    ensures
        model::option_view(r) == parsed_stem(name@.take(len as int), extension@),
{
    let ghost stem = name@.take(len as int);
    let second: usize = match find_last_dash(name, len) {
        Some(i) => i,
        None => {
            proof {
                lemma_last_dash_take(name@, len as int, len as int);
            }
            return None;
        },
    };
    proof {
        lemma_last_dash_take(name@, len as int, len as int);
        lemma_last_dash_take(name@, len as int, second as int);
    }
    let first: usize = match find_last_dash(name, second) {
        Some(i) => i,
        None => {
            return None;
        },
    };
    let era_number: u64 = match parse_numeral(name, first + 1, second) {
        Some(n) => n,
        None => {
            assert(stem.subrange(first + 1, second as int) =~= name@.subrange(
                first + 1,
                second as int,
            ));
            return None;
        },
    };
    proof {
        assert(stem.subrange(first + 1, second as int) =~= name@.subrange(
            first + 1,
            second as int,
        ));
        assert(stem.take(first as int) =~= name@.subrange(0, first as int));
        assert(stem.skip(second + 1) =~= name@.subrange(second + 1, len as int));
    }
    Some(
        ParsedArchiveName {
            network: text::string_of(name, 0, first),
            era_number,
            root_hex: text::string_of(name, second + 1, len),
            extension: extension.to_owned(),
        },
    )
}

proof fn lemma_last_dash_take(s: Seq<char>, len: int, n: int)
    requires
        0 <= n <= len <= s.len(),
    ensures
        last_dash(s.take(len), n) == last_dash(s, n),
    decreases n,
{
    if n > 0 {
        lemma_last_dash_take(s, len, n - 1);
    }
}

impl ParsedArchiveName {
    /// Parse any recognized archive filename (`.era`, `.era1`).
    pub fn parse(name: &str) -> (r: Option<Self>)
        ensures
            model::option_view(r) == parsed_name(name@),
    {
        let chars = text::chars_of(name);
        proof {
            reveal_strlit(".era");
            reveal_strlit(".era1");
        }
        let era = text::chars_of(".era");
        let era1 = text::chars_of(".era1");
        if tail_is(&chars, &era) {
            parse_stem(&chars, chars.len() - 4, ARCHIVE_EXTENSIONS[0])
        } else if tail_is(&chars, &era1) {
            parse_stem(&chars, chars.len() - 5, ARCHIVE_EXTENSIONS[1])
        } else {
            None
        }
    }
}

/// The number by which an archive file is sorted.
pub open spec fn era_key(name: Seq<char>) -> u64 {
    parsed_name(name)->Some_0.era_number
}

/// Whether a name is that of an archive file.
pub open spec fn is_archive() -> spec_fn(Seq<char>) -> bool {
    |name: Seq<char>| parsed_name(name) is Some
}

/// Whether a name cannot be parsed.
pub open spec fn is_other() -> spec_fn(Seq<char>) -> bool {
    |name: Seq<char>| parsed_name(name) is None
}

/// Names and the numbers by which they are sorted.
pub open spec fn keyed(names: Seq<Seq<char>>) -> Seq<(u64, Seq<char>)> {
    Seq::new(names.len(), |i: int| (era_key(names[i]), names[i]))
}

/// The model of a list of numbered names.
pub open spec fn pair_views(s: Seq<(u64, String)>) -> Seq<(u64, Seq<char>)> {
    Seq::new(s.len(), |i: int| (s[i].0, s[i].1@))
}

/// Whether the numbers do not decrease.
pub open spec fn in_order(s: Seq<(u64, Seq<char>)>) -> bool {
    forall|i: int, j: int| 0 <= i <= j < s.len() ==> (#[trigger] s[i]).0 <= (#[trigger] s[j]).0
}

/// Whether a name has this number.
pub open spec fn key_is(key: u64) -> spec_fn((u64, Seq<char>)) -> bool {
    |p: (u64, Seq<char>)| p.0 == key
}

/// The names with this number, in order.
pub open spec fn with_key(s: Seq<(u64, Seq<char>)>, key: u64) -> Seq<(u64, Seq<char>)> {
    s.filter(key_is(key))
}

/// Whether `after` is `before`, stably sorted: the numbers do not decrease,
/// and names with the same number are the same ones in the same order.
pub open spec fn stably_sorted(
    before: Seq<(u64, Seq<char>)>,
    after: Seq<(u64, Seq<char>)>,
) -> bool {
    &&& in_order(after)
    &&& after.len() == before.len()
    &&& forall|key: u64| #[trigger] with_key(after, key) == with_key(before, key)
}

proof fn lemma_insert(
    done: Seq<(u64, Seq<char>)>,
    sorted: Seq<(u64, Seq<char>)>,
    x: (u64, Seq<char>),
    at: int,
)
    requires
        stably_sorted(done, sorted),
        0 <= at <= sorted.len(),
        forall|i: int| 0 <= i < at ==> (#[trigger] sorted[i]).0 <= x.0,
        forall|i: int| at <= i < sorted.len() ==> x.0 < (#[trigger] sorted[i]).0,
    ensures
        stably_sorted(done.push(x), sorted.insert(at, x)),
{
    let a = sorted.take(at);
    let b = sorted.skip(at);
    let new = sorted.insert(at, x);
    assert(sorted =~= a + b);
    assert(new =~= a + seq![x] + b);
    assert forall|key: u64| #[trigger] with_key(new, key) == with_key(done.push(x), key) by {
        let p = key_is(key);
        assert(with_key(sorted, key) == with_key(done, key));
        Seq::filter_distributes_over_add(a, b, p);
        Seq::filter_distributes_over_add(a + seq![x], b, p);
        Seq::filter_distributes_over_add(a, seq![x], p);
        done.lemma_filter_push(x, p);
        Seq::<(u64, Seq<char>)>::empty().lemma_filter_push(x, p);
        assert(Seq::<(u64, Seq<char>)>::empty().push(x) =~= seq![x]);
        assert(Seq::<(u64, Seq<char>)>::empty().filter(p) =~= Seq::empty());
        if key == x.0 {
            b.lemma_all_neg_filter_empty(p);
            assert(b.filter(p) =~= Seq::empty());
            assert(with_key(new, key) =~= a.filter(p).push(x));
            assert(with_key(sorted, key) =~= a.filter(p));
        } else {
            assert(seq![x].filter(p) =~= Seq::empty());
            assert(with_key(new, key) =~= a.filter(p) + b.filter(p));
        }
    }
}

/// Sort names by their numbers. Names with the same number keep their order.
pub fn sort_by_number(files: &mut Vec<(u64, String)>)
    ensures
        stably_sorted(pair_views(old(files)@), pair_views(final(files)@)),
{
    let ghost all = pair_views(files@);
    let mut rest: Vec<(u64, String)> = Vec::new();
    std::mem::swap(files, &mut rest);
    let ghost mut done: Seq<(u64, Seq<char>)> = Seq::empty();
    assert(all =~= done + pair_views(rest@));
    assert(pair_views(files@) =~= done);
    while rest.len() > 0
        invariant
            all == done + pair_views(rest@),
            stably_sorted(done, pair_views(files@)),
        decreases rest@.len(),
    {
        let ghost left = pair_views(rest@);
        let ghost sorted = pair_views(files@);
        let x = rest.remove(0);
        let ghost item = (x.0, x.1@);
        let mut at: usize = files.len();
        while at > 0 && files[at - 1].0 > x.0
            invariant
                at <= files@.len(),
                sorted == pair_views(files@),
                item == (x.0, x.1@),
                forall|i: int| at <= i < sorted.len() ==> item.0 < (#[trigger] sorted[i]).0,
            decreases at,
        {
            assert(sorted[at - 1].0 == files@[at - 1].0);
            at = at - 1;
        }
        proof {
            assert forall|i: int| 0 <= i < at implies (#[trigger] sorted[i]).0 <= item.0 by {
                assert(sorted[i].0 <= sorted[at - 1].0);
                assert(sorted[at - 1].0 == files@[at - 1].0);
            }
            lemma_insert(done, sorted, item, at as int);
        }
        files.insert(at, x);
        proof {
            assert(pair_views(files@) =~= sorted.insert(at as int, item));
            assert(left[0] == item);
            assert(pair_views(rest@) =~= left.skip(1));
            assert(all =~= done.push(item) + pair_views(rest@));
            done = done.push(item);
        }
    }
    assert(all =~= done);
}

/// Whether `after` is `before` sorted: first the archive files, stably sorted by
/// their era numbers, and then the names that cannot be parsed, in their order.
pub open spec fn names_sorted(before: Seq<Seq<char>>, after: Seq<Seq<char>>) -> bool {
    let archives = before.filter(is_archive());
    &&& after.len() == before.len()
    &&& stably_sorted(keyed(archives), keyed(after.take(archives.len() as int)))
    &&& after.skip(archives.len() as int) == before.filter(is_other())
}

/// Every name is parsed or not.
proof fn lemma_names_parted(names: Seq<Seq<char>>)
    ensures
        names.filter(is_archive()).len() + names.filter(is_other()).len() == names.len(),
    decreases names.len(),
{
    reveal(Seq::filter);
    if names.len() > 0 {
        lemma_names_parted(names.drop_last());
    }
}

/// Move the names out of numbered names to the end of a list.
fn append_names(out: &mut Vec<String>, pairs: Vec<(u64, String)>)
    ensures
        model::views(final(out)@) == model::views(old(out)@) + names_of(pair_views(pairs@)),
{
    let ghost all = model::views(out@) + names_of(pair_views(pairs@));
    let mut pairs = pairs;
    while pairs.len() > 0
        invariant
            model::views(out@) + names_of(pair_views(pairs@)) == all,
        decreases pairs@.len(),
    {
        let ghost left = pair_views(pairs@);
        let ghost before = model::views(out@);
        let x = pairs.remove(0);
        let ghost item = x.1@;
        let ghost listed = out@;
        out.push(x.1);
        proof {
            model::lemma_views_push(listed, x.1);
            assert(left[0].1 == item);
            assert(pair_views(pairs@) =~= left.skip(1));
            assert(before + names_of(left) =~= model::views(out@) + names_of(pair_views(pairs@)));
        }
    }
    assert(all =~= model::views(out@));
}

/// Sort a list of filenames by their parsed era number.
/// Filenames that fail to parse are placed at the end.
pub fn sort_archive_filenames(files: &mut Vec<String>)
    ensures
        names_sorted(model::views(old(files)@), model::views(final(files)@)),
{
    let ghost names = model::views(files@);
    let mut rest: Vec<String> = Vec::new();
    std::mem::swap(files, &mut rest);
    let mut pairs: Vec<(u64, String)> = Vec::new();
    let mut others: Vec<String> = Vec::new();
    let ghost mut done: Seq<Seq<char>> = Seq::empty();
    proof {
        reveal(Seq::filter);
        assert(names =~= done + model::views(rest@));
        assert(pair_views(pairs@) =~= keyed(done.filter(is_archive())));
        assert(model::views(others@) =~= done.filter(is_other()));
    }
    while rest.len() > 0
        invariant
            names == done + model::views(rest@),
            pair_views(pairs@) == keyed(done.filter(is_archive())),
            model::views(others@) == done.filter(is_other()),
        decreases rest@.len(),
    {
        let ghost left = model::views(rest@);
        let name = rest.remove(0);
        let ghost item = name@;
        let ghost listed = pair_views(pairs@);
        let ghost set_aside = others@;
        proof {
            done.lemma_filter_push(item, is_archive());
            done.lemma_filter_push(item, is_other());
        }
        match ParsedArchiveName::parse(name.as_str()) {
            Some(p) => {
                pairs.push((p.era_number, name));
                proof {
                    let archives = done.filter(is_archive());
                    assert(pair_views(pairs@) =~= listed.push((p.era_number, item)));
                    assert(keyed(archives.push(item)) =~= keyed(archives).push(
                        (p.era_number, item),
                    ));
                }
            },
            None => {
                others.push(name);
                proof {
                    model::lemma_views_push(set_aside, name);
                }
            },
        }
        proof {
            assert(left[0] == item);
            assert(model::views(rest@) =~= left.skip(1));
            assert(names =~= done.push(item) + model::views(rest@));
            done = done.push(item);
        }
    }
    assert(names =~= done);
    sort_by_number(&mut pairs);
    let ghost sorted = pair_views(pairs@);
    let ghost archives = names.filter(is_archive());
    let mut out: Vec<String> = Vec::new();
    append_names(&mut out, pairs);
    let ghost front = model::views(out@);
    let ghost last = model::views(others@);
    out.append(&mut others);
    proof {
        lemma_keys_kept(archives, sorted);
        lemma_names_parted(names);
        assert(front =~= names_of(sorted));
        assert(keyed(front) =~= sorted);
        assert(model::views(out@) =~= front + last);
        assert(model::views(out@).take(archives.len() as int) =~= front);
        assert(model::views(out@).skip(archives.len() as int) =~= last);
    }
    *files = out;
}

/// The names of a list of numbered names.
pub open spec fn names_of(s: Seq<(u64, Seq<char>)>) -> Seq<Seq<char>> {
    Seq::new(s.len(), |i: int| s[i].1)
}

proof fn lemma_keys_kept(names: Seq<Seq<char>>, sorted: Seq<(u64, Seq<char>)>)
    requires
        stably_sorted(keyed(names), sorted),
    ensures
        forall|i: int| 0 <= i < sorted.len() ==> (#[trigger] sorted[i]).0 == era_key(sorted[i].1),
{
    assert forall|i: int| 0 <= i < sorted.len() implies (#[trigger] sorted[i]).0 == era_key(
        sorted[i].1,
    ) by {
        let key = sorted[i].0;
        let p = key_is(key);
        sorted.lemma_filter_contains(p, i);
        assert(with_key(sorted, key) == with_key(keyed(names), key));
        keyed(names).lemma_filter_contains_rev(p, sorted[i]);
        assert(keyed(names).contains(sorted[i]));
    }
}

pub proof fn lemma_last_dash_at(s: Seq<char>, n: int, at: int)
    requires
        0 <= at < n,
        s[at] == '-',
        forall|i: int| at < i < n ==> #[trigger] s[i] != '-',
    ensures
        last_dash(s, n) == at,
    decreases n,
{
    if n - 1 > at {
        lemma_last_dash_at(s, n - 1, at);
    }
}

/// Decimal notation is made of digits, and stands for the number.
proof fn lemma_dec_digits(n: nat)
    ensures
        text::dec(n).len() > 0,
        all_digits(text::dec(n)),
        digits_value(text::dec(n)) == n,
    decreases n,
{
    reveal_with_fuel(digits_value, 2);
    let s = text::dec(n);
    if n < 10 {
        assert(s.drop_last() =~= Seq::empty());
    } else {
        let front = text::dec(n / 10);
        lemma_dec_digits(n / 10);
        assert(s.drop_last() =~= front);
        assert forall|i: int| 0 <= i < s.len() implies '0' <= #[trigger] s[i] <= '9' by {
            if i < front.len() {
                assert(s[i] == front[i]);
            }
        }
    }
}

/// Leading zeros do not change the number.
proof fn lemma_leading_zeros(zeros: nat, s: Seq<char>)
    requires
        all_digits(s),
    ensures
        all_digits(text::zeros(zeros) + s),
        digits_value(text::zeros(zeros) + s) == digits_value(s),
    decreases s.len() + zeros,
{
    reveal_with_fuel(digits_value, 2);
    let all = text::zeros(zeros) + s;
    assert forall|i: int| 0 <= i < all.len() implies '0' <= #[trigger] all[i] <= '9' by {
        if i >= zeros {
            assert(all[i] == s[i - zeros]);
        }
    }
    if s.len() > 0 {
        assert(all.drop_last() =~= text::zeros(zeros) + s.drop_last());
        lemma_leading_zeros(zeros, s.drop_last());
    } else if zeros > 0 {
        let fewer = (zeros - 1) as nat;
        assert(all.drop_last() =~= text::zeros(fewer) + s);
        lemma_leading_zeros(fewer, s);
    } else {
        assert(all =~= s);
    }
}

/// Padded decimal notation is a numeral for the number.
pub proof fn padded_numeral(n: u64, width: nat)
    ensures
        all_digits(text::dec_padded(n as nat, width)),
        numeral(text::dec_padded(n as nat, width)) == Some(n),
{
    let d = text::dec(n as nat);
    lemma_dec_digits(n as nat);
    if d.len() < width {
        lemma_leading_zeros((width - d.len()) as nat, d);
    }
    let s = text::dec_padded(n as nat, width);
    assert('0' <= s[0] <= '9');
}

/// Parsing the name of an ERA file gives back what it was made of.
pub proof fn filename_roundtrip(network: Seq<char>, era_number: u64, root_prefix: [u8; 4])
    ensures
        parsed_name(era_name(network, era_number, root_prefix)) == Some(
            ParsedArchiveNameView {
                network,
                era_number,
                root_hex: text::hex_byte(root_prefix[0]) + text::hex_byte(root_prefix[1])
                    + text::hex_byte(root_prefix[2]) + text::hex_byte(root_prefix[3]),
                extension: "era"@,
            },
        ),
{
    reveal_strlit("-");
    reveal_strlit(".era");
    reveal_strlit(".era1");
    let name = era_name(network, era_number, root_prefix);
    let number = text::dec_padded(era_number as nat, 5);
    let root = text::hex_byte(root_prefix[0]) + text::hex_byte(root_prefix[1]) + text::hex_byte(
        root_prefix[2],
    ) + text::hex_byte(root_prefix[3]);
    let stem = network + "-"@ + number + "-"@ + root;
    padded_numeral(era_number, 5);
    assert(name =~= stem + ".era"@);
    assert(name.skip(name.len() - 4) =~= ".era"@);
    assert(name.take(name.len() - 4) =~= stem);
    let first = network.len() as int;
    let second = first + 1 + number.len();
    assert forall|i: int| second < i < stem.len() implies #[trigger] stem[i] != '-' by {
        assert(stem[i] == root[i - second - 1]);
    }
    lemma_last_dash_at(stem, stem.len() as int, second);
    assert forall|i: int| first < i < second implies #[trigger] stem[i] != '-' by {
        assert(stem[i] == number[i - first - 1]);
    }
    lemma_last_dash_at(stem, second, first);
    assert(stem.subrange(first + 1, second) =~= number);
    assert(stem.take(first) =~= network);
    assert(stem.skip(second + 1) =~= root);
}

/// After sorting, a name that cannot be parsed is followed only by such names.
pub proof fn unparsed_names_last(
    before: Seq<Seq<char>>,
    after: Seq<Seq<char>>,
    i: int,
    j: int,
)
    requires
        names_sorted(before, after),
        0 <= i <= j < after.len(),
        parsed_name(after[i]) is None,
    ensures
        parsed_name(after[j]) is None,
{
    let n = before.filter(is_archive()).len() as int;
    if i < n {
        lemma_sorted_archive(before, after, i);
    }
    assert(after.skip(n)[j - n] == after[j]);
    lemma_filter_holds(before, is_other(), j - n);
}

/// What a filter lets through has its property.
proof fn lemma_filter_holds(names: Seq<Seq<char>>, p: spec_fn(Seq<char>) -> bool, i: int)
    requires
        0 <= i < names.filter(p).len(),
    ensures
        p(names.filter(p)[i]),
        names.contains(names.filter(p)[i]),
{
    names.lemma_filter_pred(p, i);
    names.lemma_filter_contains_rev(p, names.filter(p)[i]);
}

/// The archive files that come first after sorting are those of before.
proof fn lemma_sorted_archive(before: Seq<Seq<char>>, after: Seq<Seq<char>>, i: int)
    requires
        names_sorted(before, after),
        0 <= i < before.filter(is_archive()).len(),
    ensures
        parsed_name(after[i]) is Some,
        before.contains(after[i]),
{
    let archives = before.filter(is_archive());
    let front = after.take(archives.len() as int);
    let item = keyed(front)[i];
    let p = key_is(item.0);
    assert(with_key(keyed(front), item.0) == with_key(keyed(archives), item.0));
    keyed(front).lemma_filter_contains(p, i);
    keyed(archives).lemma_filter_contains_rev(p, item);
    let k = choose|k: int| 0 <= k < keyed(archives).len() && keyed(archives)[k] == item;
    assert(archives[k] == after[i]);
    lemma_filter_holds(before, is_archive(), k);
}

/// After sorting, the era numbers of the archive files do not decrease.
pub proof fn archives_in_order(before: Seq<Seq<char>>, after: Seq<Seq<char>>, i: int, j: int)
    requires
        names_sorted(before, after),
        0 <= i <= j < after.len(),
        parsed_name(after[j]) is Some,
    ensures
        parsed_name(after[i]) matches Some(p) && p.era_number <= parsed_name(
            after[j],
        )->Some_0.era_number,
{
    let n = before.filter(is_archive()).len() as int;
    if parsed_name(after[i]) is None {
        unparsed_names_last(before, after, i, j);
    }
    if j >= n {
        assert(after.skip(n)[j - n] == after[j]);
        lemma_filter_holds(before, is_other(), j - n);
    }
    let front = keyed(after.take(n));
    assert(front[i].0 <= front[j].0);
}

/// Sorting loses no name and adds none.
pub proof fn sorting_keeps_names(
    before: Seq<Seq<char>>,
    after: Seq<Seq<char>>,
    name: Seq<char>,
)
    requires
        names_sorted(before, after),
    ensures
        before.contains(name) <==> after.contains(name),
{
    let archives = before.filter(is_archive());
    let others = before.filter(is_other());
    let n = archives.len() as int;
    let front = after.take(n);
    if before.contains(name) {
        let i = choose|i: int| 0 <= i < before.len() && before[i] == name;
        if parsed_name(name) is Some {
            before.lemma_filter_contains(is_archive(), i);
            let k = choose|k: int| 0 <= k < archives.len() && archives[k] == name;
            let item = keyed(archives)[k];
            let p = key_is(item.0);
            assert(with_key(keyed(front), item.0) == with_key(keyed(archives), item.0));
            keyed(archives).lemma_filter_contains(p, k);
            keyed(front).lemma_filter_contains_rev(p, item);
            let j = choose|j: int| 0 <= j < keyed(front).len() && keyed(front)[j] == item;
            assert(after[j] == name);
        } else {
            before.lemma_filter_contains(is_other(), i);
            let k = choose|k: int| 0 <= k < others.len() && others[k] == name;
            assert(after[n + k] == others[k]);
        }
    }
    if after.contains(name) {
        let i = choose|i: int| 0 <= i < after.len() && after[i] == name;
        if i < n {
            lemma_sorted_archive(before, after, i);
        } else {
            assert(others[i - n] == after[i]);
            lemma_filter_holds(before, is_other(), i - n);
        }
    }
}

} // verus!
