//! Decimal numerals: reading and writing integers as digits.

use vstd::prelude::*;

verus! {

/// Whether `c` is one of the ten ASCII digits.
pub open spec fn is_digit(c: char) -> bool {
    '0' <= c && c <= '9'
}

/// The number that the digit `c` stands for.
pub open spec fn digit_of(c: char) -> nat {
    (c as u8 - 48) as nat
}

/// The digit that stands for `d`, where `d` is below ten.
pub open spec fn digit_char(d: nat) -> char {
    ((d + 48) as u8) as char
}

/// Whether every character of `s` is a digit.
pub open spec fn all_digits(s: Seq<char>) -> bool {
    forall|i: int| 0 <= i < s.len() ==> is_digit(#[trigger] s[i])
}

/// The number that the digits `s` write, most significant digit first.
pub open spec fn numeral_value(s: Seq<char>) -> nat
    decreases s.len(),
{
    if s.len() == 0 {
        0
    } else {
        numeral_value(s.drop_last()) * 10 + digit_of(s.last())
    }
}

/// The digits that write `n`, without leading zeros.
pub open spec fn numeral(n: nat) -> Seq<char>
    decreases n,
{
    if n < 10 {
        seq![digit_char(n)]
    } else {
        numeral(n / 10).push(digit_char(n % 10))
    }
}

/// The decimal text of `n`: a minus sign for a negative number, then its digits.
pub open spec fn decimal_text(n: int) -> Seq<char> {
    if n < 0 {
        seq!['-'] + numeral((-n) as nat)
    } else {
        numeral(n as nat)
    }
}

/// A numeral is made of digits, at least one.
pub proof fn lemma_numeral_digits(n: nat)
    ensures
        numeral(n).len() >= 1,
        all_digits(numeral(n)),
    decreases n,
{
    lemma_digit_char(n % 10);
    if n >= 10 {
        lemma_numeral_digits(n / 10);
    }
}

/// The digit that stands for `d` is a digit, and stands for `d`.
pub proof fn lemma_digit_char(d: nat)
    requires
        d < 10,
    ensures
        is_digit(digit_char(d)),
        digit_of(digit_char(d)) == d,
{
    let b = (d + 48) as u8;
    assert(48 <= b <= 57);
    assert((b as char) as u8 == b);
    assert('0' as u8 == 48 && '9' as u8 == 57);
}

/// Reading the digits that write `n` gives `n` back.
pub proof fn lemma_numeral_value(n: nat)
    ensures
        numeral_value(numeral(n)) == n,
    decreases n,
{
    lemma_digit_char(n % 10);
    if n < 10 {
        assert(numeral(n).drop_last() == Seq::<char>::empty());
        assert(numeral_value(numeral(n).drop_last()) == 0);
    } else {
        lemma_numeral_value(n / 10);
        assert(numeral(n).drop_last() == numeral(n / 10));
    }
}

/// Whether `c` is a digit.
pub fn digit(c: char) -> (r: bool)
    ensures
        r == is_digit(c),
{
    '0' <= c && c <= '9'
}

/// The digits of `n`.
pub fn numeral_of(n: u128) -> (r: Vec<char>)
    ensures
        r@ == numeral(n as nat),
    decreases n,
{
    if n < 10 {
        let mut out: Vec<char> = Vec::new();
        out.push(((n as u8) + 48) as char);
        out
    } else {
        let mut out = numeral_of(n / 10);
        out.push((((n % 10) as u8) + 48) as char);
        out
    }
}

/// The number below ten that the digit `c` stands for.
pub fn digit_value(c: char) -> (r: u8)
    requires
        is_digit(c),
    ensures
        r == digit_of(c),
        r < 10,
{
    (c as u8) - 48
}

/// A longer numeral does not write a smaller number than its start does.
pub proof fn lemma_numeral_value_grows(s: Seq<char>, k: int)
    requires
        0 <= k <= s.len(),
    ensures
        numeral_value(s.take(k)) <= numeral_value(s),
    decreases s.len() - k,
{
    if k == s.len() {
        assert(s.take(k) == s);
    } else {
        assert(s.drop_last().take(k) == s.take(k));
        lemma_numeral_value_grows(s.drop_last(), k);
    }
}

/// What the digits `s` write, where that is a number up to `max`; `None` for
/// an empty text, for one with a character that is no digit, and for a larger
/// number.
pub open spec fn numeral_up_to(s: Seq<char>, max: nat) -> Option<nat> {
    if s.len() > 0 && all_digits(s) && numeral_value(s) <= max {
        Some(numeral_value(s))
    } else {
        None
    }
}

/// Reads the digits `v[from..]` as a number up to `u64::MAX`.
pub fn read_numeral(v: &Vec<char>, from: usize) -> (r: Option<u64>)
    requires
        from <= v.len(),
    ensures
        match numeral_up_to(v@.skip(from as int), u64::MAX as nat) {
            Some(n) => r == Some(n as u64),
            None => r is None,
        },
{
    let ghost s = v@.skip(from as int);
    if from == v.len() {
        return None;
    }
    let mut acc: u64 = 0;
    let mut i: usize = from;
    while i < v.len()
        invariant
            from <= i <= v.len(),
            s == v@.skip(from as int),
            all_digits(s.take(i - from)),
            acc == numeral_value(s.take(i - from)),
        decreases v.len() - i,
    {
        let c: char = v[i];
        proof {
            assert(s[i - from] == c);
            assert(s.take(i - from + 1).drop_last() == s.take(i - from));
            assert(s.take(i - from + 1).last() == c);
        }
        if !digit(c) {
            return None;
        }
        let d: u64 = digit_value(c) as u64;
        if acc > (u64::MAX - d) / 10 {
            proof {
                if all_digits(s) {
                    lemma_numeral_value_grows(s, i - from + 1);
                }
            }
            return None;
        }
        acc = acc * 10 + d;
        i += 1;
    }
    proof {
        assert(s.take(i - from) == s);
    }
    Some(acc)
}

/// Whether `s` is an integer literal: an optional sign `+` or `-`, then at
/// least one digit.
pub open spec fn is_integer_literal(s: Seq<char>) -> bool {
    if s.len() > 0 && (s[0] == '+' || s[0] == '-') {
        s.len() > 1 && all_digits(s.skip(1))
    } else {
        s.len() > 0 && all_digits(s)
    }
}

/// The number that the integer literal `s` writes.
pub open spec fn integer_value(s: Seq<char>) -> int {
    if s.len() > 0 && s[0] == '-' {
        -(numeral_value(s.skip(1)) as int)
    } else if s.len() > 0 && s[0] == '+' {
        numeral_value(s.skip(1)) as int
    } else {
        numeral_value(s) as int
    }
}

/// What `s` reads as, where it is an integer literal for a number from `lo`
/// to `hi`.
pub open spec fn integer_within(s: Seq<char>, lo: int, hi: int) -> Option<int> {
    if is_integer_literal(s) && lo <= integer_value(s) <= hi {
        Some(integer_value(s))
    } else {
        None
    }
}

/// Reads `v` as an integer from `i64::MIN` to `u64::MAX`.
pub fn read_integer(v: &Vec<char>) -> (r: Option<i128>)
    ensures
        match integer_within(v@, i64::MIN as int, u64::MAX as int) {
            Some(n) => r == Some(n as i128),
            None => r is None,
        },
{
    if v.len() == 0 {
        return None;
    }
    let first: char = v[0];
    if first == '-' {
        match read_numeral(v, 1) {
            Some(m) => {
                if m <= 9223372036854775808u64 {
                    Some(-(m as i128))
                } else {
                    None
                }
            },
            None => None,
        }
    } else if first == '+' {
        match read_numeral(v, 1) {
            Some(m) => Some(m as i128),
            None => None,
        }
    } else {
        proof {
            assert(v@.skip(0) == v@);
        }
        match read_numeral(v, 0) {
            Some(m) => Some(m as i128),
            None => None,
        }
    }
}

/// The decimal text of `n`.
pub fn decimal_of(n: i128) -> (r: Vec<char>)
    ensures
        r@ == decimal_text(n as int),
{
    if n < 0 {
        let mut out: Vec<char> = Vec::new();
        out.push('-');
        let digits = numeral_of(((-(n + 1)) as u128) + 1);
        crate::text::push_all(&mut out, &digits);
        out
    } else {
        numeral_of(n as u128)
    }
}

/// Reading the decimal text of `n` gives `n` back.
pub proof fn lemma_decimal_text_value(n: int)
    ensures
        is_integer_literal(decimal_text(n)),
        integer_value(decimal_text(n)) == n,
{
    if n < 0 {
        let m = (-n) as nat;
        lemma_numeral_digits(m);
        lemma_numeral_value(m);
        assert(decimal_text(n).skip(1) == numeral(m));
    } else {
        lemma_numeral_digits(n as nat);
        lemma_numeral_value(n as nat);
        lemma_digit_char((n as nat) % 10);
        assert(is_digit(numeral(n as nat)[0]));
    }
}

} // verus!
