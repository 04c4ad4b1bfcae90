//! Typing raw text: what value a text of the flat line format stands for.
//!
//! An empty text is null. `true` and `false`, in any mix of ASCII case, are
//! truth values. An integer literal that fits 64 signed bits is an integer. Any
//! other text that a decimal number can be read from is a decimal. All the
//! rest is a text, with its escapes undone.
//!
//! The flat line format does not say what kind a value had. A text such as
//! `007`, written for a tree that held it as a text, is read back as the
//! number 7: going through flat lines widens types, and is meant to.

use crate::escape::{unescape_chars, unescaped};
use crate::numeral::{
    all_digits, digit, integer_within, is_digit, read_integer,
};
use crate::text::{ascii_lower, ascii_lowered, chars_of, string_of, to_ascii_lower};
use crate::value::{Number, NumberView, Tree, ConfigValue};
use vstd::prelude::*;

verus! {

/// How many digits `s` starts with.
pub open spec fn leading_digits(s: Seq<char>) -> nat
    decreases s.len(),
{
    if s.len() > 0 && is_digit(s[0]) {
        1 + leading_digits(s.skip(1))
    } else {
        0
    }
}

/// `s` without the sign `+` or `-` that it may start with.
pub open spec fn without_sign(s: Seq<char>) -> Seq<char> {
    if s.len() > 0 && (s[0] == '+' || s[0] == '-') {
        s.skip(1)
    } else {
        s
    }
}

/// Whether `s` is an exponent: `e` or `E`, an optional sign, then at least one
/// digit.
pub open spec fn is_exponent(s: Seq<char>) -> bool {
    &&& s.len() > 0
    &&& (s[0] == 'e' || s[0] == 'E')
    &&& without_sign(s.skip(1)).len() > 0
    &&& all_digits(without_sign(s.skip(1)))
}

/// Whether `s` writes a decimal number without a sign: digits, then
/// optionally a point and more digits, with at least one digit before or
/// behind the point, then optionally an exponent.
pub open spec fn is_decimal_number(s: Seq<char>) -> bool {
    let whole = leading_digits(s);
    let after_whole = s.skip(whole as int);
    let point = after_whole.len() > 0 && after_whole[0] == '.';
    let after_point = if point {
        after_whole.skip(1)
    } else {
        after_whole
    };
    let fraction = if point {
        leading_digits(after_point)
    } else {
        0
    };
    let rest = after_point.skip(fraction as int);
    whole + fraction >= 1 && (rest.len() == 0 || is_exponent(rest))
}

/// Whether `s` is `inf` or `infinity`, in any mix of ASCII case.
pub open spec fn is_infinity_word(s: Seq<char>) -> bool {
    ascii_lowered(s) == seq!['i', 'n', 'f'] || ascii_lowered(s) == seq![
        'i',
        'n',
        'f',
        'i',
        'n',
        'i',
        't',
        'y',
    ]
}

/// Whether `s` is `nan`, in any mix of ASCII case.
pub open spec fn is_nan_word(s: Seq<char>) -> bool {
    ascii_lowered(s) == seq!['n', 'a', 'n']
}

/// Whether a decimal number can be read from `s`: an optional sign, then
/// `inf`, `infinity`, `nan` or a decimal number.
pub open spec fn is_float_literal(s: Seq<char>) -> bool {
    let body = without_sign(s);
    is_infinity_word(body) || is_nan_word(body) || is_decimal_number(body)
}

/// The value that the raw text `s` stands for.
pub open spec fn inferred(s: Seq<char>) -> Tree {
    if s.len() == 0 {
        Tree::Null
    } else if ascii_lowered(s) == seq!['t', 'r', 'u', 'e'] {
        Tree::Bool(true)
    } else if ascii_lowered(s) == seq!['f', 'a', 'l', 's', 'e'] {
        Tree::Bool(false)
    } else if integer_within(s, i64::MIN as int, i64::MAX as int) is Some {
        Tree::Number(
            NumberView::Integer(integer_within(s, i64::MIN as int, i64::MAX as int).unwrap()),
        )
    } else if is_float_literal(s) {
        Tree::Number(NumberView::Float(s))
    } else {
        Tree::String(unescaped(s))
    }
}

/// Whether `v[from..]`, in lower case, is the word `word`.
fn is_word(v: &Vec<char>, from: usize, word: &Vec<char>) -> (r: bool)
    requires
        from <= v.len(),
    ensures
        r == (ascii_lowered(v@.skip(from as int)) == word@),
{
    let ghost s = v@.skip(from as int);
    if v.len() - from != word.len() {
        return false;
    }
    let mut i: usize = 0;
    while i < word.len()
        invariant
            i <= word.len(),
            from <= v.len(),
            v.len() - from == word.len(),
            s == v@.skip(from as int),
            forall|j: int| 0 <= j < i ==> ascii_lower(#[trigger] s[j]) == word@[j],
        decreases word.len() - i,
    {
        if to_ascii_lower(v[from + i]) != word[i] {
            assert(ascii_lowered(s)[i as int] != word@[i as int]);
            return false;
        }
        i += 1;
    }
    assert(ascii_lowered(s) =~= word@);
    true
}

/// Whether `v[from..]` is `inf` or `infinity`, in any mix of ASCII case.
pub fn infinity_word(v: &Vec<char>, from: usize) -> (r: bool)
    requires
        from <= v.len(),
    ensures
        r == is_infinity_word(v@.skip(from as int)),
{
    let mut inf: Vec<char> = Vec::new();
    inf.push('i');
    inf.push('n');
    inf.push('f');
    let mut infinity: Vec<char> = Vec::new();
    infinity.push('i');
    infinity.push('n');
    infinity.push('f');
    infinity.push('i');
    infinity.push('n');
    infinity.push('i');
    infinity.push('t');
    infinity.push('y');
    proof {
        assert(inf@ =~= seq!['i', 'n', 'f']);
        assert(infinity@ =~= seq!['i', 'n', 'f', 'i', 'n', 'i', 't', 'y']);
    }
    is_word(v, from, &inf) || is_word(v, from, &infinity)
}

/// Whether `v[from..]` is `nan`, in any mix of ASCII case.
pub fn nan_word(v: &Vec<char>, from: usize) -> (r: bool)
    requires
        from <= v.len(),
    ensures
        r == is_nan_word(v@.skip(from as int)),
{
    let mut nan: Vec<char> = Vec::new();
    nan.push('n');
    nan.push('a');
    nan.push('n');
    proof {
        assert(nan@ =~= seq!['n', 'a', 'n']);
    }
    is_word(v, from, &nan)
}

/// The first place from `from` on where `v` has no digit.
fn skip_digits(v: &Vec<char>, from: usize) -> (r: usize)
    requires
        from <= v.len(),
    ensures
        from <= r <= v.len(),
        r - from == leading_digits(v@.skip(from as int)),
        forall|j: int| from <= j < r ==> is_digit(#[trigger] v@[j]),
{
    let mut i: usize = from;
    while i < v.len() && digit(v[i])
        invariant
            from <= i <= v.len(),
            leading_digits(v@.skip(from as int)) == (i - from) + leading_digits(v@.skip(i as int)),
            forall|j: int| from <= j < i ==> is_digit(#[trigger] v@[j]),
        decreases v.len() - i,
    {
        proof {
            let rest = v@.skip(i as int);
            assert(rest[0] == v@[i as int]);
            assert(rest.skip(1) == v@.skip(i + 1));
        }
        i += 1;
    }
    proof {
        let rest = v@.skip(i as int);
        if rest.len() > 0 {
            assert(rest[0] == v@[i as int]);
        }
    }
    i
}

/// Whether `v[from..]` is an exponent.
fn exponent_at(v: &Vec<char>, from: usize) -> (r: bool)
    requires
        from < v.len(),
    ensures
        r == is_exponent(v@.skip(from as int)),
{
    let ghost s = v@.skip(from as int);
    proof {
        assert(s[0] == v@[from as int]);
    }
    if !(v[from] == 'e' || v[from] == 'E') {
        return false;
    }
    let mut i: usize = from + 1;
    let ghost t = s.skip(1);
    proof {
        assert(t == v@.skip(from + 1));
        if t.len() > 0 {
            assert(t[0] == v@[from + 1]);
        }
    }
    if i < v.len() && (v[i] == '+' || v[i] == '-') {
        i += 1;
    }
    let ghost d = without_sign(t);
    proof {
        assert(d == v@.skip(i as int));
    }
    if i == v.len() {
        return false;
    }
    let end = skip_digits(v, i);
    proof {
        if end == v.len() {
            assert forall|j: int| 0 <= j < d.len() implies is_digit(#[trigger] d[j]) by {
                assert(d[j] == v@[j + i]);
            }
        } else {
            assert(d[end - i] == v@[end as int]);
            let rest = v@.skip(end as int);
            assert(rest[0] == v@[end as int]);
            assert(d.skip(end - i) == rest);
            lemma_leading_digits_stop(d, end - i);
        }
    }
    end == v.len()
}

/// Where the leading digits of `s` stop, there is no digit.
proof fn lemma_leading_digits_stop(s: Seq<char>, n: int)
    requires
        n == leading_digits(s),
        n < s.len(),
    ensures
        !is_digit(s[n]),
    decreases s.len(),
{
    if s.len() > 0 && is_digit(s[0]) {
        assert(s.skip(1)[n - 1] == s[n]);
        lemma_leading_digits_stop(s.skip(1), n - 1);
    }
}

/// Whether a decimal number can be read from `v`.
pub fn float_literal(v: &Vec<char>) -> (r: bool)
    ensures
        r == is_float_literal(v@),
{
    let mut from: usize = 0;
    if v.len() > 0 && (v[0] == '+' || v[0] == '-') {
        from = 1;
    }
    let ghost body = without_sign(v@);
    proof {
        assert(v@.skip(0) == v@);
        assert(body == v@.skip(from as int));
    }
    if infinity_word(v, from) || nan_word(v, from) {
        return true;
    }
    let whole_end = skip_digits(v, from);
    let ghost after_whole = body.skip((whole_end - from) as int);
    proof {
        assert(after_whole == v@.skip(whole_end as int));
        if after_whole.len() > 0 {
            assert(after_whole[0] == v@[whole_end as int]);
        }
    }
    let point = whole_end < v.len() && v[whole_end] == '.';
    let mut at: usize = whole_end;
    let mut fraction: usize = 0;
    if point {
        at = whole_end + 1;
        let fraction_end = skip_digits(v, at);
        proof {
            assert(after_whole.skip(1) == v@.skip(at as int));
        }
        fraction = fraction_end - at;
        at = fraction_end;
    }
    proof {
        let after_point = if point {
            after_whole.skip(1)
        } else {
            after_whole
        };
        assert(after_point.skip(fraction as int) == v@.skip(at as int));
    }
    if (whole_end - from) + fraction < 1 {
        return false;
    }
    if at == v.len() {
        return true;
    }
    exponent_at(v, at)
}

/// The value that the raw characters `v` stand for.
pub fn infer_chars(v: &Vec<char>) -> (r: ConfigValue)
    ensures
        r@ == inferred(v@),
{
    if v.len() == 0 {
        return ConfigValue::Null;
    }
    let mut yes: Vec<char> = Vec::new();
    yes.push('t');
    yes.push('r');
    yes.push('u');
    yes.push('e');
    let mut no: Vec<char> = Vec::new();
    no.push('f');
    no.push('a');
    no.push('l');
    no.push('s');
    no.push('e');
    proof {
        assert(yes@ =~= seq!['t', 'r', 'u', 'e']);
        assert(no@ =~= seq!['f', 'a', 'l', 's', 'e']);
        assert(v@.skip(0) == v@);
    }
    if is_word(v, 0, &yes) {
        return ConfigValue::Bool(true);
    }
    if is_word(v, 0, &no) {
        return ConfigValue::Bool(false);
    }
    match read_integer(v) {
        Some(n) => {
            if -9223372036854775808i128 <= n && n <= 9223372036854775807i128 {
                return ConfigValue::Number(Number::Integer(n));
            }
        },
        None => {},
    }
    if float_literal(v) {
        return ConfigValue::Number(Number::Float(string_of(v)));
    }
    let text = unescape_chars(v);
    ConfigValue::String(string_of(&text))
}

/// The value that a raw text of the flat line format stands for.
pub fn parse_properties_value(value: &str) -> (r: ConfigValue)
    ensures
        r@ == inferred(value@),
{
    let v = chars_of(value);
    infer_chars(&v)
}

} // verus!
