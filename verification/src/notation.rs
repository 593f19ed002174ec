//! What the notations of numbers and bytes stand for.

use vstd::prelude::*;

use crate::fs::naming;
use crate::text;
use crate::verify::hash;

verus! {

/// The number that decimal digits stand for, each ten times the next.
pub open spec fn decimal_value(s: Seq<char>) -> int
    decreases s.len(),
{
    if s.len() == 0 {
        0
    } else {
        decimal_value(s.drop_last()) * 10 + (s.last() as int - 0x30)
    }
}

/// Decimal notation is made of digits, stands for the number, and has no zero in
/// front.
pub proof fn decimal_notation(n: nat)
    ensures
        text::dec(n).len() > 0,
        forall|i: int| 0 <= i < text::dec(n).len() ==> '0' <= #[trigger] text::dec(n)[i] <= '9',
        decimal_value(text::dec(n)) == n,
        text::dec(n).len() > 1 ==> text::dec(n)[0] != '0',
        n > 0 ==> text::dec(n)[0] != '0',
    decreases n,
{
    if n >= 10 {
        decimal_notation(n / 10);
        let front = text::dec(n / 10);
        assert(text::dec(n).drop_last() =~= front);
        assert forall|i: int| 0 <= i < text::dec(n).len() implies '0' <= #[trigger] text::dec(n)[i]
            <= '9' by {
            if i < front.len() {
                assert(text::dec(n)[i] == front[i]);
            }
        }
        assert(text::dec(n)[0] == front[0]);
    } else {
        assert(text::dec(n).drop_last() =~= Seq::empty());
        assert(decimal_value(text::dec(n).drop_last()) == 0);
    }
}

/// Filled up notation is as wide as was asked, if the number has room. In front
/// of the number there are zeros.
pub proof fn filled_notation(n: nat, width: nat)
    ensures
        ({
            let s = text::dec_padded(n, width);
            let d = text::dec(n);
            &&& s.len() == if d.len() < width {
                width
            } else {
                d.len()
            }
            &&& s.skip(s.len() - d.len()) == d
            &&& forall|i: int| 0 <= i < s.len() - d.len() ==> #[trigger] s[i] == '0'
        }),
{
    let s = text::dec_padded(n, width);
    let d = text::dec(n);
    assert(s.skip(s.len() - d.len()) =~= d);
}

/// A byte in hexadecimal notation is two digits in lower case, of which the
/// first counts sixteen times.
pub proof fn byte_notation(b: u8)
    ensures
        ({
            let s = text::hex_byte(b);
            &&& s.len() == 2
            &&& 16 * hash::hex_value(s[0]) + hash::hex_value(s[1]) == b
            &&& '0' <= s[0] <= '9' || 'a' <= s[0] <= 'f'
            &&& '0' <= s[1] <= '9' || 'a' <= s[1] <= 'f'
        }),
{
}

/// Bytes in hexadecimal notation stand one after the other.
pub proof fn bytes_notation(bytes: Seq<u8>)
    ensures
        text::hex_text(bytes).len() == 2 * bytes.len(),
        forall|i: int|
            0 <= i < bytes.len() ==> text::hex_text(bytes).subrange(2 * i, 2 * i + 2)
                == text::hex_byte(#[trigger] bytes[i]),
    decreases bytes.len(),
{
    if bytes.len() > 0 {
        let front = bytes.drop_last();
        bytes_notation(front);
        let n = front.len() as int;
        assert forall|i: int| 0 <= i < bytes.len() implies text::hex_text(bytes).subrange(
            2 * i,
            2 * i + 2,
        ) == text::hex_byte(#[trigger] bytes[i]) by {
            if i < n {
                assert(text::hex_text(front).subrange(2 * i, 2 * i + 2) == text::hex_byte(front[i]));
                assert(text::hex_text(bytes).subrange(2 * i, 2 * i + 2) =~= text::hex_text(
                    front,
                ).subrange(2 * i, 2 * i + 2));
            } else {
                assert(text::hex_text(bytes).subrange(2 * i, 2 * i + 2) =~= text::hex_byte(
                    bytes[i],
                ));
            }
        }
    }
}

/// Aligned text is as wide as was asked, if it has room. To the left it starts
/// with the text, to the right it ends with it, and the rest is spaces.
pub proof fn alignment(s: Seq<char>, width: nat)
    ensures
        ({
            let l = text::left_aligned(s, width);
            let r = text::right_aligned(s, width);
            let n = if s.len() < width {
                width
            } else {
                s.len()
            };
            &&& l.len() == n && r.len() == n
            &&& l.take(s.len() as int) == s
            &&& forall|i: int| s.len() <= i < n ==> #[trigger] l[i] == ' '
            &&& r.skip(n - s.len()) == s
            &&& forall|i: int| 0 <= i < n - s.len() ==> #[trigger] r[i] == ' '
        }),
{
    let l = text::left_aligned(s, width);
    let r = text::right_aligned(s, width);
    assert(l.take(s.len() as int) =~= s);
    assert(r.skip(r.len() - s.len()) =~= s);
}

/// A numeral is read as the number that its digits stand for, if it has digits
/// alone and the number has room. A plus sign may stand in front.
pub proof fn numeral_value(s: Seq<char>)
    ensures
        s.len() > 0 && (forall|i: int| 0 <= i < s.len() ==> '0' <= #[trigger] s[i] <= '9') ==> {
            &&& decimal_value(s) <= u64::MAX ==> naming::numeral(s) == Some(decimal_value(s) as u64)
            &&& decimal_value(s) > u64::MAX ==> naming::numeral(s) is None
            &&& naming::numeral(seq!['+'] + s) == naming::numeral(s)
        },
        s.len() == 0 ==> naming::numeral(s) is None,
        s.len() > 0 && s[0] != '+' && (exists|i: int|
            0 <= i < s.len() && !('0' <= #[trigger] s[i] <= '9')) ==> naming::numeral(s) is None,
{
    if s.len() > 0 && (forall|i: int| 0 <= i < s.len() ==> '0' <= #[trigger] s[i] <= '9') {
        assert(s[0] != '+');
        assert((seq!['+'] + s).skip(1) =~= s);
        lemma_digits_value(s);
    }
    if s.len() > 0 && s[0] != '+' && (exists|i: int|
        0 <= i < s.len() && !('0' <= #[trigger] s[i] <= '9')) {
        assert(!naming::all_digits(s));
    }
}

proof fn lemma_digits_value(s: Seq<char>)
    requires
        forall|i: int| 0 <= i < s.len() ==> '0' <= #[trigger] s[i] <= '9',
    ensures
        naming::digits_value(s) == decimal_value(s),
        decimal_value(s) >= 0,
    decreases s.len(),
{
    if s.len() > 0 {
        let front = s.drop_last();
        assert forall|i: int| 0 <= i < front.len() implies '0' <= #[trigger] front[i] <= '9' by {
            assert(front[i] == s[i]);
        }
        lemma_digits_value(front);
        assert('0' <= s[s.len() - 1] <= '9');
    }
}

} // verus!
