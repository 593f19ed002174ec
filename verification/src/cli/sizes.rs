//! How near the sizes in the reports are.

use vstd::prelude::*;

use crate::cli;
use crate::text;

verus! {

/// The nearest whole number is no more than half away, and if it is half away it
/// is even.
pub proof fn nearest_is_near(n: nat, d: nat)
    requires
        d > 0,
    ensures
        2 * (cli::nearest(n, d) * d - n) <= d,
        2 * (n - cli::nearest(n, d) * d) <= d,
        2 * (cli::nearest(n, d) * d - n) == d || 2 * (n - cli::nearest(n, d) * d) == d
            ==> cli::nearest(n, d) % 2 == 0,
{
    let q = n / d;
    let r = n % d;
    assert(n == q * d + r && r < d) by (nonlinear_arith)
        requires
            d > 0,
            q == n / d,
            r == n % d,
    ;
    assert((q + 1) * d == q * d + d) by (nonlinear_arith);
}

/// The spacing is 1 up to 53 binary digits, and doubles with each digit more.
pub proof fn spacing_doubles(n: nat)
    ensures
        n < 0x20_0000_0000_0000 ==> cli::spacing(n) == 1,
        n >= 0x20_0000_0000_0000 ==> cli::spacing(n) == 2 * cli::spacing(n / 2),
        cli::spacing(n) >= 1,
        cli::spacing(n) * 0x20_0000_0000_0000 > n,
        n >= 0x20_0000_0000_0000 ==> cli::spacing(n) * 0x10_0000_0000_0000 <= n,
    decreases n,
{
    if n >= 0x20_0000_0000_0000 {
        spacing_doubles(n / 2);
    }
}

/// A size of less than 53 binary digits is not rounded.
proof fn lemma_exact(n: nat)
    requires
        n < 0x20_0000_0000_0000,
    ensures
        cli::rounded(n) == n,
{
    assert(n % 1 == 0);
    assert(n / 1 == n);
    assert(cli::nearest(n, 1) == n);
    assert(n * 1 == n);
}

/// Sizes below 1024 are told in bytes. Sizes of less than 53 binary digits are
/// told in the largest unit of which there is at least one, and what is told is
/// no more than half a hundredth of the unit away.
pub proof fn size_told(bytes: u64)
    requires
        bytes < 0x20_0000_0000_0000,
    ensures
        bytes < 1024 ==> cli::size_text(bytes) == text::dec(bytes as nat) + " B"@,
        1024 <= bytes < 1024 * 1024 ==> exists|h: nat|
            cli::size_text(bytes) == #[trigger] cli::hundredths_text(h) + " KiB"@ && near(
                h,
                bytes,
                1024,
            ),
        1024 * 1024 <= bytes < 1024 * 1024 * 1024 ==> exists|h: nat|
            cli::size_text(bytes) == #[trigger] cli::hundredths_text(h) + " MiB"@ && near(
                h,
                bytes,
                1024 * 1024,
            ),
        1024 * 1024 * 1024 <= bytes < 1024 * 1024 * 1024 * 1024 ==> exists|h: nat|
            cli::size_text(bytes) == #[trigger] cli::hundredths_text(h) + " GiB"@ && near(
                h,
                bytes,
                1024 * 1024 * 1024,
            ),
        1024 * 1024 * 1024 * 1024 <= bytes ==> exists|h: nat|
            cli::size_text(bytes) == #[trigger] cli::hundredths_text(h) + " TiB"@ && near(
                h,
                bytes,
                1024 * 1024 * 1024 * 1024,
            ),
{
    let n = bytes as nat;
    lemma_exact(n);
    if n < 1024 {
    } else if n < 0x10_0000 {
        lemma_near(bytes, 1024);
        let h = cli::nearest(100 * n, 1024);
        assert(cli::size_text(bytes) == cli::hundredths_text(h) + " KiB"@);
    } else if n < 0x4000_0000 {
        lemma_near(bytes, 0x10_0000);
        let h = cli::nearest(100 * n, 0x10_0000);
        assert(cli::size_text(bytes) == cli::hundredths_text(h) + " MiB"@);
    } else if n < 0x100_0000_0000 {
        lemma_near(bytes, 0x4000_0000);
        let h = cli::nearest(100 * n, 0x4000_0000);
        assert(cli::size_text(bytes) == cli::hundredths_text(h) + " GiB"@);
    } else {
        lemma_near(bytes, 0x100_0000_0000);
        let h = cli::nearest(100 * n, 0x100_0000_0000);
        assert(cli::size_text(bytes) == cli::hundredths_text(h) + " TiB"@);
    }
}

/// Whether `h` hundredths of a unit are `bytes`, to half a hundredth.
pub open spec fn near(h: nat, bytes: u64, unit: nat) -> bool {
    &&& 2 * (h * unit - 100 * bytes) <= unit
    &&& 2 * (100 * bytes - h * unit) <= unit
}

proof fn lemma_near(bytes: u64, unit: nat)
    requires
        unit > 0,
    ensures
        near(cli::nearest(100 * bytes as nat, unit), bytes, unit),
{
    nearest_is_near(100 * bytes as nat, unit);
}

/// A larger size is rounded to 53 binary digits of precision first, and by no
/// more than half of what they tell apart.
pub proof fn large_sizes_rounded(bytes: u64)
    ensures
        2 * (cli::rounded(bytes as nat) - bytes) <= cli::spacing(bytes as nat),
        2 * (bytes - cli::rounded(bytes as nat)) <= cli::spacing(bytes as nat),
        cli::rounded(bytes as nat) % cli::spacing(bytes as nat) == 0,
        bytes >= 0x20_0000_0000_0000 ==> exists|h: nat|
            cli::size_text(bytes) == #[trigger] cli::hundredths_text(h) + " TiB"@ && 2 * (h
                * 0x100_0000_0000 - 100 * cli::rounded(bytes as nat)) <= 0x100_0000_0000 && 2 * (100
                * cli::rounded(bytes as nat) - h * 0x100_0000_0000) <= 0x100_0000_0000,
{
    let n = bytes as nat;
    let s = cli::spacing(n);
    spacing_doubles(n);
    nearest_is_near(n, s);
    let q = cli::nearest(n, s);
    assert((q * s) % s == 0) by (nonlinear_arith)
        requires
            s > 0,
    ;
    let m = cli::rounded(n);
    nearest_is_near(100 * m, 0x100_0000_0000);
    if n >= 0x20_0000_0000_0000 {
        assert(m >= 0x100_0000_0000);
        let h = cli::nearest(100 * m, 0x100_0000_0000);
        assert(cli::size_text(bytes) == cli::hundredths_text(h) + " TiB"@);
    }
}

/// A number of hundredths is told with two digits after the point.
pub proof fn hundredths_told(h: nat)
    ensures
        ({
            let s = cli::hundredths_text(h);
            &&& s.len() == text::dec(h / 100).len() + 3
            &&& s.take(s.len() - 3) == text::dec(h / 100)
            &&& s[s.len() - 3] == '.'
            &&& s[s.len() - 2] as int == 0x30 + h % 100 / 10
            &&& s[s.len() - 1] as int == 0x30 + h % 10
        }),
{
    let s = cli::hundredths_text(h);
    reveal_strlit(".");
    let r = h % 100;
    reveal_with_fuel(text::dec, 3);
    assert(text::dec_padded(r, 2).len() == 2);
    assert(s.take(s.len() - 3) =~= text::dec(h / 100));
    assert(s[s.len() - 2] == text::dec_padded(r, 2)[0]);
    assert(s[s.len() - 1] == text::dec_padded(r, 2)[1]);
    assert(r % 10 == h % 10);
}

} // verus!
