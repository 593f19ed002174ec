//! What the commands of the toolkit report, apart from reading files and
//! printing.

pub mod building;
pub mod convert;
pub mod info;
pub mod laws;
pub mod outcomes;
pub mod read;
pub mod showing;
pub mod sizes;
pub mod texts;
pub mod verify;

use vstd::prelude::*;

use crate::format::e2store::Header;
use crate::format::types;
use crate::text;

verus! {

/// The place of an entry type among the names that are reported, which are in
/// alphabetical order. The version comes last.
pub open spec fn class_of(typ: [u8; 2]) -> int {
    if typ == types::TYPE_ACCUMULATOR {
        0
    } else if typ == types::TYPE_COMPRESSED_BODY {
        1
    } else if typ == types::TYPE_BLOCK_INDEX {
        2
    } else if typ == types::TYPE_COMPRESSED_BEACON_STATE {
        3
    } else if typ == types::TYPE_COMPRESSED_HEADER {
        4
    } else if typ == types::TYPE_COMPRESSED_SIGNED_BEACON_BLOCK {
        5
    } else if typ == types::TYPE_COMPRESSED_RECEIPTS {
        6
    } else if typ == types::TYPE_SLOT_INDEX {
        7
    } else if typ == types::TYPE_TOTAL_DIFFICULTY {
        8
    } else if typ == types::TYPE_VERSION {
        10
    } else {
        9
    }
}

/// The name at a place.
pub open spec fn class_name(k: int) -> Seq<char> {
    if k == 0 {
        "BlockAccumulator"@
    } else if k == 1 {
        "BlockBody"@
    } else if k == 2 {
        "BlockIndex"@
    } else if k == 3 {
        "CompressedBeaconState"@
    } else if k == 4 {
        "CompressedHeader"@
    } else if k == 5 {
        "CompressedSignedBeaconBlock"@
    } else if k == 6 {
        "Receipts"@
    } else if k == 7 {
        "SlotIndex"@
    } else if k == 8 {
        "TotalDifficulty"@
    } else if k == 10 {
        "Version"@
    } else {
        "Unknown"@
    }
}

fn class_of_type(typ: [u8; 2]) -> (k: usize)
    ensures
        k == class_of(typ),
        k <= 10,
{
    if types::same_type(typ, types::TYPE_ACCUMULATOR) {
        0
    } else if types::same_type(typ, types::TYPE_COMPRESSED_BODY) {
        1
    } else if types::same_type(typ, types::TYPE_BLOCK_INDEX) {
        2
    } else if types::same_type(typ, types::TYPE_COMPRESSED_BEACON_STATE) {
        3
    } else if types::same_type(typ, types::TYPE_COMPRESSED_HEADER) {
        4
    } else if types::same_type(typ, types::TYPE_COMPRESSED_SIGNED_BEACON_BLOCK) {
        5
    } else if types::same_type(typ, types::TYPE_COMPRESSED_RECEIPTS) {
        6
    } else if types::same_type(typ, types::TYPE_SLOT_INDEX) {
        7
    } else if types::same_type(typ, types::TYPE_TOTAL_DIFFICULTY) {
        8
    } else if types::same_type(typ, types::TYPE_VERSION) {
        10
    } else {
        9
    }
}

fn class_label(k: usize) -> (name: &'static str)
    ensures
        name@ == class_name(k as int),
{
    if k == 0 {
        "BlockAccumulator"
    } else if k == 1 {
        "BlockBody"
    } else if k == 2 {
        "BlockIndex"
    } else if k == 3 {
        "CompressedBeaconState"
    } else if k == 4 {
        "CompressedHeader"
    } else if k == 5 {
        "CompressedSignedBeaconBlock"
    } else if k == 6 {
        "Receipts"
    } else if k == 7 {
        "SlotIndex"
    } else if k == 8 {
        "TotalDifficulty"
    } else if k == 10 {
        "Version"
    } else {
        "Unknown"
    }
}

/// Map a 2-byte entry type to a human-readable name.
pub fn entry_type_name(typ: &[u8; 2]) -> (name: &'static str)
    ensures
        name@ == class_name(class_of(*typ)),
{
    class_label(class_of_type(*typ))
}

/// The nearest whole number to `n / d`, and of two equally near ones the even.
pub open spec fn nearest(n: nat, d: nat) -> nat {
    if 2 * (n % d) < d || (2 * (n % d) == d && (n / d) % 2 == 0) {
        n / d
    } else {
        n / d + 1
    }
}

/// How far apart the numbers around `n` are that have 53 binary digits of
/// precision.
pub open spec fn spacing(n: nat) -> nat
    decreases n,
{
    if n < 0x20_0000_0000_0000 {
        1
    } else {
        2 * spacing(n / 2)
    }
}

/// `n`, rounded to 53 binary digits of precision.
pub open spec fn rounded(n: nat) -> nat {
    nearest(n, spacing(n)) * spacing(n)
}

/// A number of hundredths, with the decimal point.
pub open spec fn hundredths_text(h: nat) -> Seq<char> {
    text::dec(h / 100) + "."@ + text::dec_padded(h % 100, 2)
}

/// A byte count as a human-readable size: in the largest unit up to TiB of
/// which there is at least one, with two decimals.
pub open spec fn size_text(bytes: u64) -> Seq<char> {
    let n = rounded(bytes as nat);
    if n < 1024 {
        text::dec(bytes as nat) + " B"@
    } else if n < 0x10_0000 {
        hundredths_text(nearest(100 * n, 1024)) + " KiB"@
    } else if n < 0x4000_0000 {
        hundredths_text(nearest(100 * n, 0x10_0000)) + " MiB"@
    } else if n < 0x100_0000_0000 {
        hundredths_text(nearest(100 * n, 0x4000_0000)) + " GiB"@
    } else {
        hundredths_text(nearest(100 * n, 0x100_0000_0000)) + " TiB"@
    }
}

fn divide_nearest(n: u128, d: u128) -> (q: u128)
    requires
        0 < d <= 0x100_0000_0000,
        n <= 0x100_0000_0000_0000_0000_0000,
    ensures
        q == nearest(n as nat, d as nat),
        q <= n + 1,
{
    let q: u128 = n / d;
    let r: u128 = n % d;
    proof {
        assert(n / d <= n) by (nonlinear_arith)
            requires
                d > 0,
        ;
        assert(n % d < d);
    }
    if 2 * r < d || (2 * r == d && q % 2 == 0) {
        q
    } else {
        q + 1
    }
}

/// Round to 53 binary digits of precision.
fn round_size(bytes: u64) -> (v: u128)
    ensures
        v == rounded(bytes as nat),
        v <= 0x1_0000_0000_0000_0800,
{
    let mut s: u128 = 1;
    let mut m: u64 = bytes;
    while m >= 0x20_0000_0000_0000
        invariant
            spacing(bytes as nat) == s * spacing(m as nat),
            1 <= s,
            s * m <= bytes,
        decreases m,
    {
        proof {
            let half = (m / 2) as nat;
            assert(spacing(m as nat) == 2 * spacing(half));
            assert(s * (2 * spacing(half)) == (2 * s) * spacing(half)) by (nonlinear_arith);
            assert((2 * s) * (m / 2) <= s * m) by (nonlinear_arith)
                requires
                    s >= 1,
            ;
            assert(s * 0x20_0000_0000_0000 <= s * m) by (nonlinear_arith)
                requires
                    m >= 0x20_0000_0000_0000,
                    s >= 1,
            ;
        }
        s = 2 * s;
        m = m / 2;
    }
    assert(s * 1 == s);
    proof {
        lemma_spacing_bound(bytes as nat);
    }
    let q: u128 = divide_nearest(bytes as u128, s);
    proof {
        lemma_nearest_bound(bytes as nat, s as nat);
    }
    q * s
}

proof fn lemma_spacing_bound(n: nat)
    requires
        n <= u64::MAX,
    ensures
        1 <= spacing(n) <= 0x800,
{
    reveal_with_fuel(spacing, 12);
}

proof fn lemma_nearest_bound(n: nat, d: nat)
    requires
        d > 0,
    ensures
        nearest(n, d) * d <= n + d,
{
    let q = n / d;
    assert(q * d <= n) by (nonlinear_arith)
        requires
            d > 0,
            q == n / d,
    ;
    assert((q + 1) * d == q * d + d) by (nonlinear_arith);
}

/// Append a number of hundredths, with the decimal point.
fn push_hundredths(s: &mut String, h: u64)
    ensures
        final(s)@ == old(s)@ + hundredths_text(h as nat),
{
    text::push_dec(s, h / 100);
    s.append(".");
    text::push_dec_padded(s, h % 100, 2);
    assert(s@ =~= old(s)@ + hundredths_text(h as nat));
}

fn size_in(v: u128, unit: u128, name: &str) -> (s: String)
    requires
        0 < unit <= 0x100_0000_0000,
        v < 1024 * unit || (unit == 0x100_0000_0000 && v <= 0x1_0000_0000_0000_0800),
    ensures
        s@ == hundredths_text(nearest((100 * v) as nat, unit as nat)) + name@,
{
    let h: u128 = divide_nearest(100 * v, unit);
    proof {
        assert(nearest((100 * v) as nat, unit as nat) <= 0x1_0000_0000_0000) by {
            let n = (100 * v) as nat;
            let d = unit as nat;
            assert(n / d <= 0x1_0000_0000) by (nonlinear_arith)
                requires
                    d > 0,
                    d == unit,
                    n == 100 * v,
                    v < 1024 * unit || (unit == 0x100_0000_0000 && v <= 0x1_0000_0000_0000_0800),
            ;
        }
    }
    let mut s = String::new();
    push_hundredths(&mut s, h as u64);
    s.append(name);
    assert(s@ =~= hundredths_text(h as nat) + name@);
    s
}

/// Format a byte count as a human-readable size string.
pub fn human_size(bytes: u64) -> (s: String)
    ensures
        s@ == size_text(bytes),
{
    let v: u128 = round_size(bytes);
    if v < 1024 {
        let mut s = text::dec_string(bytes);
        s.append(" B");
        s
    } else if v < 0x10_0000 {
        size_in(v, 1024, " KiB")
    } else if v < 0x4000_0000 {
        size_in(v, 0x10_0000, " MiB")
    } else if v < 0x100_0000_0000 {
        size_in(v, 0x4000_0000, " GiB")
    } else {
        size_in(v, 0x100_0000_0000, " TiB")
    }
}

/// How many of the first `n` headers have the name at place `k`.
pub open spec fn class_count(headers: Seq<Header>, n: int, k: int) -> nat
    decreases n,
{
    if n <= 0 {
        0
    } else {
        class_count(headers, n - 1, k) + if class_of(headers[n - 1].typ) == k {
            1nat
        } else {
            0nat
        }
    }
}

/// The names before place `k` of which there are headers, and how many.
pub open spec fn breakdown(headers: Seq<Header>, k: int) -> Seq<(Seq<char>, usize)>
    decreases k,
{
    if k <= 0 {
        Seq::empty()
    } else {
        let count = class_count(headers, headers.len() as int, k - 1);
        if count > 0 {
            breakdown(headers, k - 1).push((class_name(k - 1), count as usize))
        } else {
            breakdown(headers, k - 1)
        }
    }
}

/// The model of a list of names and counts.
pub open spec fn count_views(s: Seq<(String, usize)>) -> Seq<(Seq<char>, usize)> {
    Seq::new(s.len(), |i: int| (s[i].0@, s[i].1))
}

fn count_class(headers: &[Header], k: usize) -> (n: usize)
    ensures
        n == class_count(headers@, headers@.len() as int, k as int),
{
    let mut n: usize = 0;
    let mut i: usize = 0;
    while i < headers.len()
        invariant
            i <= headers@.len(),
            n <= i,
            n == class_count(headers@, i as int, k as int),
        decreases headers@.len() - i,
    {
        if class_of_type(headers[i].typ) == k {
            n = n + 1;
        }
        i = i + 1;
    }
    n
}

/// Count occurrences of each entry type from a header list, versions aside.
/// The names are in alphabetical order.
pub fn count_entry_types(headers: &[Header]) -> (counts: Vec<(String, usize)>)
    ensures
        count_views(counts@) == breakdown(headers@, 10),
{
    let mut counts: Vec<(String, usize)> = Vec::new();
    let mut k: usize = 0;
    assert(count_views(counts@) =~= Seq::empty());
    while k < 10
        invariant
            k <= 10,
            count_views(counts@) == breakdown(headers@, k as int),
        decreases 10 - k,
    {
        let n: usize = count_class(headers, k);
        if n > 0 {
            let ghost before = count_views(counts@);
            counts.push((class_label(k).to_owned(), n));
            assert(count_views(counts@) =~= before.push((class_name(k as int), n)));
        }
        k = k + 1;
    }
    counts
}

} // verus!
