use vstd::prelude::*;
use vstd::string::*;

verus! {

/// `c` is one of the ASCII digits.
pub open spec fn is_digit(c: char) -> bool {
    '0' <= c <= '9'
}

/// At least one character, all of them digits.
pub open spec fn all_digits(s: Seq<char>) -> bool {
    s.len() > 0 && forall|i: int| 0 <= i < s.len() ==> is_digit(#[trigger] s[i])
}

/// The number that the digits `s` write in base ten.
pub open spec fn digits_value(s: Seq<char>) -> int
    decreases s.len(),
{
    if s.len() == 0 {
        0
    } else {
        digits_value(s.drop_last()) * 10 + (s.last() as int - '0' as int)
    }
}

/// The number written by `s` as a signed decimal: an optional `+` or `-`
/// followed by digits; `None` for any other text.
pub open spec fn signed_decimal(s: Seq<char>) -> Option<int> {
    if s.len() > 0 && s[0] == '-' && all_digits(s.drop_first()) {
        Some(-digits_value(s.drop_first()))
    } else if s.len() > 0 && s[0] == '+' && all_digits(s.drop_first()) {
        Some(digits_value(s.drop_first()))
    } else if all_digits(s) {
        Some(digits_value(s))
    } else {
        None
    }
}

/// The number written by `s` as an unsigned decimal: an optional `+`
/// followed by digits; `None` for any other text.
pub open spec fn unsigned_decimal(s: Seq<char>) -> Option<int> {
    if s.len() > 0 && s[0] == '+' && all_digits(s.drop_first()) {
        Some(digits_value(s.drop_first()))
    } else if all_digits(s) {
        Some(digits_value(s))
    } else {
        None
    }
}

/// Every character of `s` is a digit (none at all for the empty sequence).
pub open spec fn only_digits(s: Seq<char>) -> bool {
    forall|i: int| 0 <= i < s.len() ==> is_digit(#[trigger] s[i])
}

/// A prefix of digits never writes more than the whole, and no digits write
/// a negative number.
proof fn lemma_prefix_value(s: Seq<char>, j: int)
    requires
        only_digits(s),
        0 <= j <= s.len(),
    ensures
        0 <= digits_value(s.take(j)) <= digits_value(s),
    decreases s.len(),
{
    if j < s.len() {
        let init = s.drop_last();
        assert(init.take(j) =~= s.take(j));
        assert(is_digit(s[s.len() - 1]));
        lemma_prefix_value(init, j);
        lemma_prefix_value(init, init.len() as int);
        assert(init.take(init.len() as int) =~= init);
    } else {
        assert(s.take(j) =~= s);
        if s.len() > 0 {
            lemma_prefix_value(s.drop_last(), s.len() - 1);
            assert(s.drop_last().take(s.len() - 1) =~= s.drop_last());
            assert(is_digit(s[s.len() - 1]));
        }
    }
}

/// The value of the digits `s[start..]`, when they are at least one, all
/// digits, and write a number no greater than `limit`; `None` otherwise.
fn read_digits(s: &str, start: usize, limit: u64) -> (r: Option<u64>)
    requires
        start <= s@.len(),
    ensures
        match r {
            Some(v) => {
                &&& all_digits(s@.subrange(start as int, s@.len() as int))
                &&& digits_value(s@.subrange(start as int, s@.len() as int)) == v
                &&& v <= limit
            },
            None => !(all_digits(s@.subrange(start as int, s@.len() as int)) && digits_value(
                s@.subrange(start as int, s@.len() as int),
            ) <= limit),
        },
{
    let n = s.unicode_len();
    let ghost t = s@.subrange(start as int, n as int);
    if start == n {
        return None;
    }
    let mut acc: u64 = 0;
    let mut i: usize = start;
    while i < n
        invariant
            n == s@.len(),
            t == s@.subrange(start as int, n as int),
            start <= i <= n,
            only_digits(t.take(i - start)),
            acc == digits_value(t.take(i - start)),
            acc <= limit,
        decreases n - i,
    {
        let c = s.get_char(i);
        let ghost k: int = i - start;
        assert(t[k] == c);
        if !('0' <= c && c <= '9') {
            assert(!all_digits(t));
            return None;
        }
        let d: u64 = (c as u32 - '0' as u32) as u64;
        assert(t.take(k + 1).drop_last() =~= t.take(k));
        assert(digits_value(t.take(k + 1)) == acc * 10 + d);
        assert(only_digits(t.take(k + 1)));
        if d > limit || acc > (limit - d) / 10 {
            proof {
                assert(acc * 10 + d > limit) by (nonlinear_arith)
                    requires
                        d > limit || acc > (limit - d) / 10,
                        0 <= acc,
                        0 <= d,
                ;
                if all_digits(t) {
                    lemma_prefix_value(t, k + 1);
                }
            }
            return None;
        }
        proof {
            assert(acc * 10 + d <= limit) by (nonlinear_arith)
                requires
                    acc <= (limit - d) / 10,
                    d <= limit,
            ;
        }
        acc = acc * 10 + d;
        i = i + 1;
    }
    assert(t.take(n - start) =~= t);
    Some(acc)
}

/// `str::parse::<i32>`: an optional sign followed by decimal digits whose
/// value fits in an `i32`.
pub fn parse_i32(s: &str) -> (r: Option<i32>)
    ensures
        r == match signed_decimal(s@) {
            Some(v) => if i32::MIN <= v <= i32::MAX {
                Some(v as i32)
            } else {
                None
            },
            None => None,
        },
{
    let n = s.unicode_len();
    let first = if n > 0 {
        s.get_char(0)
    } else {
        ' '
    };
    if first == '-' {
        assert(!is_digit(s@[0]));
        assert(s@.subrange(1, n as int) =~= s@.drop_first());
        match read_digits(s, 1, 2147483648) {
            Some(v) => Some((0 - v as i64) as i32),
            None => None,
        }
    } else if first == '+' {
        assert(!is_digit(s@[0]));
        assert(s@.subrange(1, n as int) =~= s@.drop_first());
        match read_digits(s, 1, 2147483647) {
            Some(v) => Some(v as i32),
            None => None,
        }
    } else {
        assert(s@.subrange(0, n as int) =~= s@);
        match read_digits(s, 0, 2147483647) {
            Some(v) => Some(v as i32),
            None => None,
        }
    }
}

/// `str::parse::<usize>`: an optional `+` followed by decimal digits whose
/// value fits in a `usize`.
pub fn parse_usize(s: &str) -> (r: Option<usize>)
    ensures
        r == match unsigned_decimal(s@) {
            Some(v) => if 0 <= v <= usize::MAX {
                Some(v as usize)
            } else {
                None
            },
            None => None,
        },
{
    let n = s.unicode_len();
    if n > 0 && s.get_char(0) == '+' {
        assert(!is_digit(s@[0]));
        assert(s@.subrange(1, n as int) =~= s@.drop_first());
        match read_digits(s, 1, usize::MAX as u64) {
            Some(v) => Some(v as usize),
            None => None,
        }
    } else {
        assert(s@.subrange(0, n as int) =~= s@);
        match read_digits(s, 0, usize::MAX as u64) {
            Some(v) => Some(v as usize),
            None => None,
        }
    }
}

/// The decimal numeral of `n`, as `to_string` writes it: its digits, most
/// significant first, with no leading zero ("0" for zero).
pub open spec fn decimal_numeral(n: nat) -> Seq<char>
    decreases n,
{
    if n < 10 {
        seq![(n + 48) as char]
    } else {
        decimal_numeral(n / 10).push((n % 10 + 48) as char)
    }
}

proof fn lemma_numeral_digits(n: nat)
    ensures
        all_digits(decimal_numeral(n)),
        digits_value(decimal_numeral(n)) == n,
    decreases n,
{
    if n < 10 {
        assert(decimal_numeral(n).drop_last() =~= Seq::<char>::empty());
        assert(decimal_numeral(n).last() as int - '0' as int == n);
        assert(digits_value(Seq::<char>::empty()) == 0);
        assert(digits_value(decimal_numeral(n)) == digits_value(decimal_numeral(n).drop_last()) * 10
            + (decimal_numeral(n).last() as int - '0' as int));
    } else {
        lemma_numeral_digits(n / 10);
        let w = decimal_numeral(n);
        assert(w.drop_last() =~= decimal_numeral(n / 10));
        assert(forall|i: int| 0 <= i < w.len() - 1 ==> w[i] == #[trigger] decimal_numeral(n / 10)[i]);
        assert(w.last() as int - '0' as int == n % 10);
        assert(n == (n / 10) * 10 + n % 10) by (nonlinear_arith);
        assert(digits_value(w) == digits_value(w.drop_last()) * 10 + (w.last() as int - '0' as int));
    }
}

/// Reading back the numeral of a number gives the number: every `n` written
/// in decimal, with or without a `+` before it, reads as `n`, and with a `-`
/// before it reads as `-n`.
pub proof fn lemma_numeral_round_trip(n: nat)
    ensures
        unsigned_decimal(decimal_numeral(n)) == Some(n as int),
        unsigned_decimal(seq!['+'] + decimal_numeral(n)) == Some(n as int),
        signed_decimal(decimal_numeral(n)) == Some(n as int),
        signed_decimal(seq!['+'] + decimal_numeral(n)) == Some(n as int),
        signed_decimal(seq!['-'] + decimal_numeral(n)) == Some(-n),
{
    lemma_numeral_digits(n);
    let w = decimal_numeral(n);
    assert((seq!['+'] + w).drop_first() =~= w);
    assert((seq!['-'] + w).drop_first() =~= w);
    assert((seq!['+'] + w)[0] == '+');
    assert((seq!['-'] + w)[0] == '-');
    assert(is_digit(w[0]));
}

} // verus!
