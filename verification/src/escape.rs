//! The escapes of the flat line format.
//!
//! A key is written with a backslash before each backslash, `=`, `:` and
//! space. A value is written with `\\` for a backslash, `\n` for a line feed
//! and `\r` for a carriage return; a tab is written as it is. Reading a value
//! undoes `\n`, `\r` and `\t`, and takes any other escaped character as itself.

use crate::text::{chars_of, string_of};
use vstd::prelude::*;

verus! {

/// How one character of a key is written.
pub open spec fn key_unit(c: char) -> Seq<char> {
    if c == '\\' || c == '=' || c == ':' || c == ' ' {
        seq!['\\', c]
    } else {
        seq![c]
    }
}

/// How a key is written: each character as `key_unit` writes it.
pub open spec fn escaped_key(s: Seq<char>) -> Seq<char>
    decreases s.len(),
{
    if s.len() == 0 {
        Seq::empty()
    } else {
        escaped_key(s.drop_last()) + key_unit(s.last())
    }
}

/// How one character of a value is written.
pub open spec fn value_unit(c: char) -> Seq<char> {
    if c == '\\' {
        seq!['\\', '\\']
    } else if c == '\n' {
        seq!['\\', 'n']
    } else if c == '\r' {
        seq!['\\', 'r']
    } else {
        seq![c]
    }
}

/// How a value is written: each character as `value_unit` writes it.
pub open spec fn escaped_value(s: Seq<char>) -> Seq<char>
    decreases s.len(),
{
    if s.len() == 0 {
        Seq::empty()
    } else {
        escaped_value(s.drop_last()) + value_unit(s.last())
    }
}

/// The character that an escape stands for: `n`, `r` and `t` stand for line
/// feed, carriage return and tab, any other character for itself.
pub open spec fn escape_meaning(c: char) -> char {
    if c == 'n' {
        '\n'
    } else if c == 'r' {
        '\r'
    } else if c == 't' {
        '\t'
    } else {
        c
    }
}

/// A value with its escapes undone. A backslash and the character after it
/// become what the escape stands for; a backslash at the very end is dropped.
pub open spec fn unescaped(s: Seq<char>) -> Seq<char>
    decreases s.len(),
{
    if s.len() == 0 {
        Seq::empty()
    } else if s[0] != '\\' {
        seq![s[0]] + unescaped(s.skip(1))
    } else if s.len() == 1 {
        Seq::empty()
    } else {
        seq![escape_meaning(s[1])] + unescaped(s.skip(2))
    }
}

/// Writes a key with its escapes.
pub fn escape_properties_key(key: &str) -> (r: String)
    ensures
        r@ == escaped_key(key@),
{
    let v = chars_of(key);
    let mut out: Vec<char> = Vec::new();
    let mut i: usize = 0;
    while i < v.len()
        invariant
            i <= v.len(),
            out@ == escaped_key(v@.take(i as int)),
        decreases v.len() - i,
    {
        let c: char = v[i];
        proof {
            assert(v@.take(i + 1).drop_last() == v@.take(i as int));
        }
        if c == '\\' || c == '=' || c == ':' || c == ' ' {
            out.push('\\');
        }
        out.push(c);
        i += 1;
    }
    proof {
        assert(v@.take(v@.len() as int) == v@);
    }
    string_of(&out)
}

/// Writes a value with its escapes.
pub fn escape_properties_value(value: &str) -> (r: String)
    ensures
        r@ == escaped_value(value@),
{
    let v = chars_of(value);
    let mut out: Vec<char> = Vec::new();
    let mut i: usize = 0;
    while i < v.len()
        invariant
            i <= v.len(),
            out@ == escaped_value(v@.take(i as int)),
        decreases v.len() - i,
    {
        let c: char = v[i];
        proof {
            assert(v@.take(i + 1).drop_last() == v@.take(i as int));
        }
        if c == '\\' {
            out.push('\\');
            out.push('\\');
        } else if c == '\n' {
            out.push('\\');
            out.push('n');
        } else if c == '\r' {
            out.push('\\');
            out.push('r');
        } else {
            out.push(c);
        }
        i += 1;
    }
    proof {
        assert(v@.take(v@.len() as int) == v@);
    }
    string_of(&out)
}

/// Undoes the escapes of the characters `v`.
pub fn unescape_chars(v: &Vec<char>) -> (r: Vec<char>)
    ensures
        r@ == unescaped(v@),
{
    let mut out: Vec<char> = Vec::new();
    let mut i: usize = 0;
    proof {
        assert(v@.skip(0) == v@);
    }
    while i < v.len()
        invariant
            i <= v.len(),
            out@ + unescaped(v@.skip(i as int)) == unescaped(v@),
        decreases v.len() - i,
    {
        let c: char = v[i];
        let ghost rest = v@.skip(i as int);
        proof {
            assert(rest[0] == c);
            assert(rest.skip(1) == v@.skip(i + 1));
        }
        if c != '\\' {
            proof {
                assert(out@.push(c) + unescaped(rest.skip(1)) == out@ + unescaped(rest));
            }
            out.push(c);
            i += 1;
        } else if i + 1 < v.len() {
            let next: char = v[i + 1];
            proof {
                assert(rest[1] == next);
                assert(rest.skip(2) == v@.skip(i + 2));
                assert(out@.push(escape_meaning(next)) + unescaped(rest.skip(2)) == out@
                    + unescaped(rest));
            }
            if next == 'n' {
                out.push('\n');
            } else if next == 'r' {
                out.push('\r');
            } else if next == 't' {
                out.push('\t');
            } else {
                out.push(next);
            }
            i += 2;
        } else {
            proof {
                assert(rest.len() == 1);
                assert(unescaped(rest) == Seq::<char>::empty());
                assert(unescaped(v@.skip(i + 1)) == Seq::<char>::empty());
            }
            i += 1;
        }
    }
    proof {
        assert(unescaped(v@.skip(i as int)) == Seq::<char>::empty());
        assert(out@ + Seq::<char>::empty() == out@);
    }
    out
}

/// Undoes the escapes of a value.
pub fn unescape_properties_value(value: &str) -> (r: String)
    ensures
        r@ == unescaped(value@),
{
    let v = chars_of(value);
    let out = unescape_chars(&v);
    string_of(&out)
}

} // verus!
