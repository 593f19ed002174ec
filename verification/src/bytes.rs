//! Little-endian integers.

use vstd::prelude::*;

verus! {

/// The number that `s` stands for, least significant byte first.
pub open spec fn le_value(s: Seq<u8>) -> nat
    decreases s.len(),
{
    if s.len() == 0 {
        0
    } else {
        s[0] as nat + 256 * le_value(s.drop_first())
    }
}

/// The `width` bytes of `n`, least significant first.
pub open spec fn le_bytes(n: nat, width: nat) -> Seq<u8>
    decreases width,
{
    if width == 0 {
        Seq::empty()
    } else {
        seq![(n % 256) as u8] + le_bytes(n / 256, (width - 1) as nat)
    }
}

/// `256` to the power `width`.
pub open spec fn le_limit(width: nat) -> nat
    decreases width,
{
    if width == 0 {
        1
    } else {
        256 * le_limit((width - 1) as nat)
    }
}

/// Two's complement: the signed number with the bits of `n`.
pub open spec fn signed64(n: nat) -> int {
    if n < 0x8000_0000_0000_0000 {
        n as int
    } else {
        n - 0x1_0000_0000_0000_0000
    }
}

/// Two's complement: the unsigned number with the bits of `x`.
pub open spec fn unsigned64(x: int) -> nat {
    if x >= 0 {
        x as nat
    } else {
        (x + 0x1_0000_0000_0000_0000) as nat
    }
}

/// The remainder modulo 2^64, as sums of 64-bit numbers wrap around.
pub open spec fn wrap64(x: int) -> u64 {
    (x % 0x1_0000_0000_0000_0000) as u64
}

/// Encoding yields `width` bytes.
pub proof fn lemma_le_bytes_len(n: nat, width: nat)
    ensures
        le_bytes(n, width).len() == width,
    decreases width,
{
    if width > 0 {
        lemma_le_bytes_len(n / 256, (width - 1) as nat);
    }
}

/// Decoding an encoded number gives the number back.
pub proof fn lemma_le_value_of_bytes(n: nat, width: nat)
    requires
        n < le_limit(width),
    ensures
        le_value(le_bytes(n, width)) == n,
    decreases width,
{
    if width > 0 {
        lemma_le_value_of_bytes(n / 256, (width - 1) as nat);
        assert(le_bytes(n, width).drop_first() =~= le_bytes(n / 256, (width - 1) as nat));
    }
}

/// `width` bytes stand for a number below `256^width`, and encoding that
/// number gives the bytes back.
pub proof fn lemma_le_bytes_of_value(s: Seq<u8>)
    ensures
        le_value(s) < le_limit(s.len()),
        le_bytes(le_value(s), s.len()) == s,
    decreases s.len(),
{
    if s.len() > 0 {
        lemma_le_bytes_of_value(s.drop_first());
        assert(le_bytes(le_value(s), s.len()) =~= s);
    } else {
        assert(le_bytes(le_value(s), s.len()) =~= s);
    }
}

/// The limits of the widths in use.
pub proof fn lemma_le_limits()
    ensures
        le_limit(2) == 0x1_0000,
        le_limit(4) == 0x1_0000_0000,
        le_limit(8) == 0x1_0000_0000_0000_0000,
{
    reveal_with_fuel(le_limit, 9);
}

proof fn lemma_le_value_2(s: Seq<u8>)
    requires
        s.len() == 2,
    ensures
        le_value(s) == s[0] + 0x100 * s[1],
{
    reveal_with_fuel(le_value, 3);
}

proof fn lemma_le_value_4(s: Seq<u8>)
    requires
        s.len() == 4,
    ensures
        le_value(s) == s[0] + 0x100 * s[1] + 0x1_0000 * s[2] + 0x100_0000 * s[3],
{
    reveal_with_fuel(le_value, 5);
}

/// Read the two bytes at `at`.
pub fn read_u16(s: &[u8], at: usize) -> (x: u16)
    requires
        at + 2 <= s@.len(),
    ensures
        x == le_value(s@.subrange(at as int, at + 2)),
{
    proof {
        lemma_le_value_2(s@.subrange(at as int, at + 2));
    }
    s[at] as u16 + s[at + 1] as u16 * 0x100
}

/// Read the four bytes at `at`.
pub fn read_u32(s: &[u8], at: usize) -> (x: u32)
    requires
        at + 4 <= s@.len(),
    ensures
        x == le_value(s@.subrange(at as int, at + 4)),
{
    proof {
        lemma_le_value_4(s@.subrange(at as int, at + 4));
    }
    s[at] as u32 + s[at + 1] as u32 * 0x100 + s[at + 2] as u32 * 0x1_0000 + s[at + 3] as u32
        * 0x100_0000
}

/// Read the eight bytes at `at`.
pub fn read_u64(s: &[u8], at: usize) -> (x: u64)
    requires
        at + 8 <= s@.len(),
    ensures
        x == le_value(s@.subrange(at as int, at + 8)),
{
    assert(at + 8 <= s.len());
    let low: u32 = read_u32(s, at);
    let high: u32 = read_u32(s, at + 4);
    proof {
        let t = s@.subrange(at as int, at + 8);
        lemma_le_value_4(s@.subrange(at as int, at + 4));
        lemma_le_value_4(s@.subrange(at + 4, at + 8));
        reveal_with_fuel(le_value, 9);
    }
    low as u64 + high as u64 * 0x1_0000_0000
}

/// Read the eight bytes at `at` as a signed number.
pub fn read_i64(s: &[u8], at: usize) -> (x: i64)
    requires
        at + 8 <= s@.len(),
    ensures
        x == signed64(le_value(s@.subrange(at as int, at + 8))),
{
    let u: u64 = read_u64(s, at);
    if u < 0x8000_0000_0000_0000 {
        u as i64
    } else {
        (u - 0x8000_0000_0000_0000) as i64 - 0x7fff_ffff_ffff_ffff - 1
    }
}

/// Append the `width` low bytes of `x`.
fn push_le(out: &mut Vec<u8>, x: u64, width: usize)
    ensures
        final(out)@ == old(out)@ + le_bytes(x as nat, width as nat),
{
    let mut rest: u64 = x;
    let mut left: usize = width;
    while left > 0
        invariant
            left <= width,
            out@ + le_bytes(rest as nat, left as nat) == old(out)@ + le_bytes(
                x as nat,
                width as nat,
            ),
        decreases left,
    {
        let ghost before = out@;
        out.push((rest % 256) as u8);
        proof {
            let tail = le_bytes((rest / 256) as nat, (left - 1) as nat);
            assert(before + (seq![(rest % 256) as u8] + tail) =~= out@ + tail);
        }
        rest = rest / 256;
        left = left - 1;
    }
    assert(out@ + le_bytes(rest as nat, 0) =~= out@);
}

/// Append the eight bytes of `x`.
pub fn push_u64(out: &mut Vec<u8>, x: u64)
    ensures
        final(out)@ == old(out)@ + le_bytes(x as nat, 8),
{
    push_le(out, x, 8);
}

/// Append the eight bytes of the signed number `x`.
pub fn push_i64(out: &mut Vec<u8>, x: i64)
    ensures
        final(out)@ == old(out)@ + le_bytes(unsigned64(x as int), 8),
{
    if x >= 0 {
        push_u64(out, x as u64);
    } else {
        push_u64(out, (x + 0x7fff_ffff_ffff_ffff + 1) as u64 + 0x8000_0000_0000_0000);
    }
}

/// `base + offset`, wrapping around at 2^64.
pub fn wrapping_offset(base: u64, offset: i64) -> (r: u64)
    ensures
        r == wrap64(base + offset),
{
    base.wrapping_add_signed(offset)
}

/// `a + b`, wrapping around at 2^64.
pub fn wrapping_sum(a: u64, b: u64) -> (r: u64)
    ensures
        r == wrap64(a + b),
{
    a.wrapping_add(b)
}

/// A copy of `s[from..to]`.
pub fn copy_range(s: &[u8], from: usize, to: usize) -> (v: Vec<u8>)
    requires
        from <= to <= s@.len(),
    ensures
        v@ == s@.subrange(from as int, to as int),
{
    let v = vstd::slice::slice_to_vec(vstd::slice::slice_subrange(s, from, to));
    assert(v@ =~= s@.subrange(from as int, to as int));
    v
}

} // verus!
