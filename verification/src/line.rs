//! One line of the flat line format: where its key ends and its value begins.
//!
//! Key and value are taken without the white space around them. A line whose
//! key is then empty holds no entry.

use crate::text::{chars_of, string_of, trim, trimmed};
use vstd::prelude::*;

verus! {

/// What has been read of a line so far.
pub struct LineScan {
    /// The characters of the key.
    pub key: Seq<char>,
    /// The characters of the value.
    pub value: Seq<char>,
    /// Whether the last character was a backslash that escapes the next one.
    pub escaped: bool,
    /// Whether the delimiter is still to come.
    pub in_key: bool,
}

/// The scan before the first character.
pub open spec fn scan_start() -> LineScan {
    LineScan { key: Seq::empty(), value: Seq::empty(), escaped: false, in_key: true }
}

/// The scan after one more character `c`.
///
/// An escaped character joins the key, wherever it stands, and is never a
/// delimiter. A backslash escapes the character after it. The first `=` or `:`
/// that is not escaped ends the key. Spaces before the first character of the
/// key are skipped. Any other character joins the key before the delimiter and
/// the value after it.
pub open spec fn scan_step(st: LineScan, c: char) -> LineScan {
    if st.escaped {
        LineScan { key: st.key.push(c), escaped: false, ..st }
    } else if c == '\\' {
        LineScan { escaped: true, ..st }
    } else if (c == '=' || c == ':') && st.in_key {
        LineScan { in_key: false, ..st }
    } else if c == ' ' && st.in_key && st.key.len() == 0 {
        st
    } else if st.in_key {
        LineScan { key: st.key.push(c), ..st }
    } else {
        LineScan { value: st.value.push(c), ..st }
    }
}

/// The scan after all the characters of `s`.
pub open spec fn scan(s: Seq<char>) -> LineScan
    decreases s.len(),
{
    if s.len() == 0 {
        scan_start()
    } else {
        scan_step(scan(s.drop_last()), s.last())
    }
}

/// The entry that a line holds: its key and its value, each without the white
/// space around it; none where the key is then empty.
pub open spec fn parsed_line(s: Seq<char>) -> Option<(Seq<char>, Seq<char>)> {
    let st = scan(s);
    if trim(st.key).len() == 0 {
        None
    } else {
        Some((trim(st.key), trim(st.value)))
    }
}

/// Splits the characters of a line into key and value. `None` where the line
/// gives no key; a key that comes back is never empty.
pub fn parse_line_chars(v: &Vec<char>) -> (r: Option<(Vec<char>, Vec<char>)>)
    ensures
        match r {
            Some((k, t)) => parsed_line(v@) == Some((k@, t@)) && k@.len() > 0,
            None => parsed_line(v@) is None,
        },
{
    let mut key: Vec<char> = Vec::new();
    let mut value: Vec<char> = Vec::new();
    let mut escaped = false;
    let mut in_key = true;
    let mut i: usize = 0;
    while i < v.len()
        invariant
            i <= v.len(),
            scan(v@.take(i as int)) == (LineScan {
                key: key@,
                value: value@,
                escaped: escaped,
                in_key: in_key,
            }),
        decreases v.len() - i,
    {
        let c: char = v[i];
        proof {
            assert(v@.take(i + 1).drop_last() == v@.take(i as int));
        }
        if escaped {
            key.push(c);
            escaped = false;
        } else if c == '\\' {
            escaped = true;
        } else if (c == '=' || c == ':') && in_key {
            in_key = false;
        } else if c == ' ' && in_key && key.len() == 0 {
        } else if in_key {
            key.push(c);
        } else {
            value.push(c);
        }
        i += 1;
    }
    proof {
        assert(v@.take(v@.len() as int) == v@);
    }
    let name = trimmed(&key);
    if name.len() == 0 {
        None
    } else {
        Some((name, trimmed(&value)))
    }
}

/// Splits a line into key and value. `None` where the line gives no key; a
/// key that comes back is never empty.
pub fn parse_properties_line(line: &str) -> (r: Option<(String, String)>)
    ensures
        match r {
            Some((k, t)) => parsed_line(line@) == Some((k@, t@)) && k@.len() > 0,
            None => parsed_line(line@) is None,
        },
{
    let v = chars_of(line);
    match parse_line_chars(&v) {
        Some((k, t)) => Some((string_of(&k), string_of(&t))),
        None => None,
    }
}

} // verus!
