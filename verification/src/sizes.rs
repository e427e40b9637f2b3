//! Sizes as they are written on the command line.

use vstd::prelude::*;
use vstd::string::*;

use crate::text;

verus! {

/// The value of a decimal digit.
pub open spec fn digit_value(c: char) -> Option<nat> {
    if '0' <= c <= '9' {
        Some((c as u32 - '0' as u32) as nat)
    } else {
        None
    }
}

/// All characters are decimal digits.
pub open spec fn all_digits(s: Seq<char>) -> bool {
    forall|i: int| 0 <= i < s.len() ==> digit_value(#[trigger] s[i]) is Some
}

/// The number that decimal digits stand for.
pub open spec fn number_of(s: Seq<char>) -> nat
    decreases s.len(),
{
    if s.len() == 0 {
        0
    } else {
        10 * number_of(s.drop_last()) + digit_value(s.last())->Some_0
    }
}

/// The digits of a number behind its sign.
pub open spec fn unsigned(s: Seq<char>) -> Seq<char> {
    if s.len() > 0 && s[0] == '+' {
        s.skip(1)
    } else {
        s
    }
}

/// The number that a text stands for: decimal digits, perhaps behind a plus sign, of a number that
/// fits in 64 bits.
pub open spec fn plain_number(s: Seq<char>) -> Option<u64> {
    let t = unsigned(s);
    if t.len() > 0 && all_digits(t) && number_of(t) <= u64::MAX {
        Some(number_of(t) as u64)
    } else {
        None
    }
}

/// What a suffix multiplies a number with.
pub open spec fn multiplier(c: char) -> Option<u64> {
    if c == 'K' || c == 'k' {
        Some(1024)
    } else if c == 'M' || c == 'm' {
        Some(1048576)
    } else if c == 'G' || c == 'g' {
        Some(1073741824)
    } else {
        None
    }
}

/// A size: a number, or a number with the suffix K, M or G. The factors of the size.
pub open spec fn size_factors(s: Seq<char>) -> Option<(u64, u64)> {
    match plain_number(s) {
        Some(n) => Some((n, 1)),
        None => if s.len() == 0 {
            None
        } else {
            match (multiplier(s.last()), plain_number(s.drop_last())) {
                (Some(m), Some(n)) => Some((n, m)),
                _ => None,
            }
        },
    }
}

proof fn lemma_number_grows(s: Seq<char>, n: int)
    requires
        0 <= n <= s.len(),
    ensures
        number_of(s.take(n)) <= number_of(s),
    decreases s.len(),
{
    if n < s.len() {
        lemma_number_grows(s.drop_last(), n);
        assert(s.drop_last().take(n) =~= s.take(n));
    } else {
        assert(s.take(n) =~= s);
    }
}

/// Read the number in the characters from `from` up to `to`.
fn read_number(s: &str, from: usize, to: usize) -> (r: Option<u64>)
    requires
        from <= to <= s@.len(),
    ensures
        ({
            let t = s@.subrange(from as int, to as int);
            r == (if t.len() > 0 && all_digits(t) && number_of(t) <= u64::MAX {
                Some(number_of(t) as u64)
            } else {
                None
            })
        }),
{
    let ghost t = s@.subrange(from as int, to as int);
    if from == to {
        return None;
    }
    let mut value: u64 = 0;
    assert(t.take(0) =~= seq![]);
    for i in from..to
        invariant
            from <= to <= s@.len(),
            t == s@.subrange(from as int, to as int),
            value == number_of(t.take(i - from)),
            forall|k: int| 0 <= k < i - from ==> digit_value(#[trigger] t[k]) is Some,
    {
        let c: char = s.get_char(i);
        proof {
            assert(t[i - from] == c);
            assert(t.take(i - from + 1).drop_last() =~= t.take(i - from));
            assert(t.take(i - from + 1).last() == c);
        }
        if !('0' <= c && c <= '9') {
            return None;
        }
        let digit: u64 = (c as u32 - '0' as u32) as u64;
        if value > u64::MAX / 10 || value * 10 > u64::MAX - digit {
            proof {
                lemma_number_grows(t, i - from + 1);
            }
            return None;
        }
        value = value * 10 + digit;
    }
    assert(t.take(to - from) =~= t);
    Some(value)
}

/// Read the number that the first `n` characters stand for.
fn read_plain(s: &str, n: usize) -> (r: Option<u64>)
    requires
        n <= s@.len(),
    ensures
        r == plain_number(s@.take(n as int)),
{
    let ghost t = s@.take(n as int);
    assert(s@.subrange(0, n as int) =~= t);
    if n > 0 && s.get_char(0) == '+' {
        assert(s@.subrange(1, n as int) =~= t.skip(1));
        read_number(s, 1, n)
    } else {
        read_number(s, 0, n)
    }
}

/// Read a size: a number, or a number with the suffix K, M or G. Returns its factors; `None` if the
/// text is no size.
pub fn parse_size(s: &str) -> (r: Option<(u64, u64)>)
    ensures
        r == size_factors(s@),
{
    let n: usize = s.unicode_len();
    assert(s@.take(n as int) =~= s@);
    if let Some(number) = read_plain(s, n) {
        return Some((number, 1));
    }
    if n == 0 {
        return None;
    }
    let c: char = s.get_char(n - 1);
    let factor: u64 = if c == 'K' || c == 'k' {
        1024
    } else if c == 'M' || c == 'm' {
        1048576
    } else if c == 'G' || c == 'g' {
        1073741824
    } else {
        return None;
    };
    assert(s@.take(n - 1) =~= s@.drop_last());
    match read_plain(s, n - 1) {
        Some(number) => Some((number, factor)),
        None => None,
    }
}

proof fn lemma_same_number(s: Seq<char>)
    requires
        forall|i: int| 0 <= i < s.len() ==> '0' <= #[trigger] s[i] <= '9',
    ensures
        number_of(s) == text::digits_value(s),
        all_digits(s),
    decreases s.len(),
{
    if s.len() > 0 {
        assert forall|i: int| 0 <= i < s.drop_last().len() implies '0' <= #[trigger] s.drop_last()[i]
            <= '9' by {
            assert(s.drop_last()[i] == s[i]);
        }
        lemma_same_number(s.drop_last());
        assert('0' <= s[s.len() - 1] <= '9');
    }
}

/// Digits that stand for a number of 64 bits are that size, behind a plus sign too; with K, M or G
/// behind them, in either case, it is multiplied with 1024, its square or its cube. A longer number, and
/// a text with anything else in it, is no size.
pub proof fn law_sizes_are_read(digits: Seq<char>, suffix: char)
    requires
        digits.len() > 0,
        forall|i: int| 0 <= i < digits.len() ==> '0' <= #[trigger] digits[i] <= '9',
        !('0' <= suffix <= '9'),
    ensures
        ({
            let n = text::digits_value(digits);
            let factor: u64 = if suffix == 'K' || suffix == 'k' {
                1024
            } else if suffix == 'M' || suffix == 'm' {
                1048576
            } else if suffix == 'G' || suffix == 'g' {
                1073741824
            } else {
                0
            };
            &&& size_factors(digits) == (if n <= u64::MAX {
                Some((n as u64, 1u64))
            } else {
                None
            })
            &&& size_factors(seq!['+'] + digits) == size_factors(digits)
            &&& size_factors(digits.push(suffix)) == (if n <= u64::MAX && factor > 0 {
                Some((n as u64, factor))
            } else {
                None
            })
            &&& size_factors((seq!['+'] + digits).push(suffix)) == size_factors(
                digits.push(suffix),
            )
        }),
{
    lemma_same_number(digits);
    let signed = seq!['+'] + digits;
    assert(signed.skip(1) =~= digits);
    assert(digits[0] != '+');
    assert(plain_number(digits) == plain_number(signed));
    let last = digits.len() - 1;
    assert(digits.last() == digits[last]);
    assert(signed.last() == digits[last]);
    let marked = digits.push(suffix);
    let both = signed.push(suffix);
    assert(marked.drop_last() =~= digits);
    assert(both.drop_last() =~= signed);
    assert(marked[0] == digits[0]);
    assert(marked[digits.len() as int] == suffix);
    assert(digit_value(suffix) is None);
    assert(!all_digits(marked));
    assert(both.skip(1)[digits.len() as int] == suffix);
    assert(!all_digits(both.skip(1)));
    assert(plain_number(marked) is None);
    assert(plain_number(both) is None);
}

} // verus!
