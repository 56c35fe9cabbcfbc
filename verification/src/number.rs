//! Numbers in decimal digits.

use vstd::prelude::*;

use crate::text::{chars_of, text_range};

#[allow(unused_imports)]
use crate::text::trim;

verus! {

/// Whether each character is a decimal digit.
pub open spec fn all_digits(s: Seq<char>) -> bool {
    forall|i: int| 0 <= i < s.len() ==> '0' <= #[trigger] s[i] <= '9'
}

/// The number that decimal digits stand for.
pub open spec fn number_of(s: Seq<char>) -> nat
    decreases s.len(),
{
    if s.len() == 0 {
        0
    } else {
        10 * number_of(s.drop_last()) + (s.last() as nat - '0' as nat) as nat
    }
}

/// The number that a text stands for: digits, with or without a plus sign
/// before them, of a value that fits in 64 bits.
pub open spec fn parsed_number(s: Seq<char>) -> Option<u64> {
    let digits = if s.len() > 0 && s[0] == '+' {
        s.skip(1)
    } else {
        s
    };
    if digits.len() > 0 && all_digits(digits) && number_of(digits) <= u64::MAX {
        Some(number_of(digits) as u64)
    } else {
        None
    }
}

proof fn lemma_number_grows(s: Seq<char>, n: int)
    requires
        0 <= n <= s.len(),
    ensures
        number_of(s.take(n)) <= number_of(s),
    decreases s.len() - n,
{
    if n < s.len() {
        let next = s.take(n + 1);
        assert(next.drop_last() =~= s.take(n));
        lemma_number_grows(s, n + 1);
    } else {
        assert(s.take(n) =~= s);
    }
}

/// The number that the digits `v[lo..hi]` stand for.
fn read_digits(v: &Vec<char>, lo: usize, hi: usize) -> (r: Option<u64>)
    requires
        lo < hi <= v@.len(),
    ensures
        ({
            let digits = v@.subrange(lo as int, hi as int);
            r == if all_digits(digits) && number_of(digits) <= u64::MAX {
                Some(number_of(digits) as u64)
            } else {
                None
            }
        }),
{
    let ghost digits = v@.subrange(lo as int, hi as int);
    let mut n: u64 = 0;
    let mut i: usize = lo;
    while i < hi
        invariant
            lo <= i <= hi <= v@.len(),
            digits == v@.subrange(lo as int, hi as int),
            forall|j: int| 0 <= j < i - lo ==> '0' <= #[trigger] digits[j] <= '9',
            n == number_of(digits.take(i - lo)),
        decreases hi - i,
    {
        let c = v[i];
        let ghost at = i - lo;
        proof {
            assert(digits[at] == c);
            assert(digits.take(at + 1).drop_last() =~= digits.take(at));
            assert(digits.take(at + 1).last() == c);
        }
        if c < '0' || c > '9' {
            return None;
        }
        let d: u64 = (c as u32 - '0' as u32) as u64;
        proof {
            lemma_number_grows(digits, at + 1);
            assert(number_of(digits.take(at + 1)) == 10 * n + d);
        }
        if n > (u64::MAX - d) / 10 {
            return None;
        }
        n = n * 10 + d;
        i += 1;
    }
    assert(digits.take(hi - lo) =~= digits);
    Some(n)
}

/// The number that a text stands for, without white space around it.
pub fn parse_number(text: &str) -> (r: Option<u64>)
    ensures
        r == parsed_number(trim(text@)),
{
    let v = chars_of(text);
    let (a, b): (usize, usize) = text_range(&v, 0, v.len());
    assert(v@.subrange(0, v@.len() as int) =~= text@);
    let start: usize = if a < b && v[a] == '+' {
        a + 1
    } else {
        a
    };
    proof {
        if start == a + 1 {
            assert(v@.subrange(start as int, b as int) =~= trim(text@).skip(1));
        }
    }
    if start == b {
        None
    } else {
        read_digits(&v, start, b)
    }
}

/// The decimal digit that stands for `n`.
pub open spec fn digit(n: nat) -> char {
    (n + '0' as nat) as char
}

/// `n` in decimal digits, without leading zeros.
pub open spec fn decimal(n: nat) -> Seq<char>
    decreases n,
{
    if n < 10 {
        seq![digit(n)]
    } else {
        decimal(n / 10).push(digit(n % 10))
    }
}

/// Appends `n` in decimal digits.
pub(crate) fn push_decimal(out: &mut String, n: usize)
    ensures
        final(out)@ == old(out)@ + decimal(n as nat),
    decreases n,
{
    let ghost before = out@;
    if n >= 10 {
        push_decimal(out, n / 10);
    }
    let d: u8 = (n % 10) as u8 + 0x30;
    let c = d as char;
    assert(c == digit((n % 10) as nat));
    out.push(c);
    assert(out@ =~= before + decimal(n as nat));
}

/// The digits of a number stand for it.
pub proof fn decimal_reads_back(n: nat)
    ensures
        decimal(n).len() > 0,
        all_digits(decimal(n)),
        number_of(decimal(n)) == n,
        n <= u64::MAX ==> parsed_number(decimal(n)) == Some(n as u64),
    decreases n,
{
    if n < 10 {
        let one = seq![digit(n)];
        assert(one.drop_last() =~= Seq::<char>::empty());
        assert(number_of(Seq::<char>::empty()) == 0);
        assert(number_of(one) == n);
    } else {
        decimal_reads_back(n / 10);
        let front = decimal(n / 10);
        let all = front.push(digit(n % 10));
        assert(all.drop_last() =~= front);
        assert(number_of(all) == 10 * (n / 10) + n % 10);
        assert forall|i: int| 0 <= i < all.len() implies '0' <= #[trigger] all[i] <= '9' by {
            if i < front.len() {
                assert(all[i] == front[i]);
            }
        }
    }
    assert('0' <= decimal(n)[0] <= '9');
}

/// A plus sign before the digits does not matter; a character that is no digit
/// makes a text no number, and so does a value that is too large.
pub proof fn numbers_are_digits(n: nat, s: Seq<char>, i: int)
    ensures
        n <= u64::MAX ==> parsed_number(seq!['+'] + decimal(n)) == Some(n as u64),
        n > u64::MAX ==> parsed_number(decimal(n)) is None,
        0 <= i < s.len() && !('0' <= s[i] <= '9') && (i > 0 || s[0] != '+') ==> parsed_number(s) is None,
        parsed_number(Seq::empty()) is None,
        parsed_number(seq!['+']) is None,
{
    decimal_reads_back(n);
    let d = decimal(n);
    assert((seq!['+'] + d).skip(1) =~= d);
    assert('0' <= d[0] <= '9');
    if 0 <= i < s.len() && !('0' <= s[i] <= '9') && (i > 0 || s[0] != '+') {
        let digits = if s[0] == '+' {
            s.skip(1)
        } else {
            s
        };
        let k = if s[0] == '+' {
            i - 1
        } else {
            i
        };
        assert(digits[k] == s[i]);
        assert(!all_digits(digits));
    }
}

/// One more digit makes a number ten times as large, and adds its own value.
pub proof fn digits_have_their_place(s: Seq<char>, c: char)
    requires
        '0' <= c <= '9',
    ensures
        number_of(s.push(c)) == 10 * number_of(s) + (c as int - '0' as int),
        number_of(Seq::empty()) == 0,
{
    assert(s.push(c).drop_last() =~= s);
}

/// Digits make a number whatever their number, as long as its value fits.
pub proof fn digits_make_a_number(s: Seq<char>)
    requires
        s.len() > 0,
        forall|i: int| 0 <= i < s.len() ==> '0' <= #[trigger] s[i] <= '9',
    ensures
        number_of(s) <= u64::MAX ==> parsed_number(s) == Some(number_of(s) as u64) && parsed_number(seq!['+'] + s)
            == Some(number_of(s) as u64),
        number_of(s) > u64::MAX ==> parsed_number(s) is None && parsed_number(seq!['+'] + s) is None,
{
    assert('0' <= s[0] <= '9');
    assert((seq!['+'] + s).skip(1) =~= s);
}

} // verus!
