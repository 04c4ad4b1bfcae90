//! The flat line format as a whole: a text of `key=value` lines.
//!
//! Reading skips blank lines and lines that start with `#` or `!`; of two lines
//! with the same key the later one gives the value. Writing puts the entries in
//! the order of their keys, one line each, with a line feed between two lines
//! and none after the last.

use crate::escape::{escape_properties_key, escape_properties_value, escaped_key, escaped_value};
use crate::flat::{lemma_put_entries, put, sorted_by_key, FlatEntry, FlatMap};
use crate::line::{parse_line_chars, parsed_line};
use crate::text::{chars_of, push_all, split_chars, split_on, string_of, trim, trimmed};
use vstd::prelude::*;

verus! {

/// Whether a line, taken without the white space around it, holds no entry: it
/// is empty, or a comment that starts with `#` or `!`.
pub open spec fn is_skipped(line: Seq<char>) -> bool {
    line.len() == 0 || line[0] == '#' || line[0] == '!'
}

/// The entry that one raw line of a text gives, if any.
pub open spec fn entry_of_line(raw: Seq<char>) -> Option<(Seq<char>, Seq<char>)> {
    let line = trim(raw);
    if is_skipped(line) {
        None
    } else {
        parsed_line(line)
    }
}

/// The entries that the lines give, each stored in turn.
pub open spec fn entries_of_lines(lines: Seq<Seq<char>>) -> Seq<(Seq<char>, Seq<char>)>
    decreases lines.len(),
{
    if lines.len() == 0 {
        Seq::empty()
    } else {
        let before = entries_of_lines(lines.drop_last());
        match entry_of_line(lines.last()) {
            Some((k, v)) => put(before, k, v),
            None => before,
        }
    }
}

/// The entries that a text in the flat line format holds.
pub open spec fn parsed_properties(text: Seq<char>) -> Seq<(Seq<char>, Seq<char>)> {
    entries_of_lines(split_on(text, '\n'))
}

/// The line that writes one entry.
pub open spec fn line_of(e: (Seq<char>, Seq<char>)) -> Seq<char> {
    escaped_key(e.0) + seq!['='] + escaped_value(e.1)
}

/// The lines of the entries `s`, in their order, with a line feed between two
/// lines.
pub open spec fn joined_lines(s: Seq<(Seq<char>, Seq<char>)>) -> Seq<char>
    decreases s.len(),
{
    if s.len() == 0 {
        Seq::empty()
    } else if s.len() == 1 {
        line_of(s[0])
    } else {
        joined_lines(s.drop_last()) + seq!['\n'] + line_of(s.last())
    }
}

/// The text that writes the entries `s`: their lines in the order of the keys.
pub open spec fn properties_text(s: Seq<(Seq<char>, Seq<char>)>) -> Seq<char> {
    joined_lines(sorted_by_key(s))
}

/// No line gives an entry with an empty key.
pub proof fn lemma_entries_of_lines_named(lines: Seq<Seq<char>>)
    ensures
        forall|i: int|
            0 <= i < entries_of_lines(lines).len() ==> (#[trigger] entries_of_lines(lines)[i]).0.len()
                > 0,
    decreases lines.len(),
{
    if lines.len() > 0 {
        let before = entries_of_lines(lines.drop_last());
        lemma_entries_of_lines_named(lines.drop_last());
        match entry_of_line(lines.last()) {
            Some((k, v)) => {
                let all = put(before, k, v);
                lemma_put_entries(before, k, v);
                assert forall|i: int| 0 <= i < all.len() implies (#[trigger] all[i]).0.len() > 0 by {
                    if all[i] != (k, v) {
                        let j = choose|j: int| 0 <= j < before.len() && all[i] == before[j];
                        assert(before[j].0.len() > 0);
                    }
                }
            },
            None => {},
        }
    }
}

/// Reads a text in the flat line format. No entry has an empty key.
pub fn parse_properties(content: &str) -> (r: FlatMap)
    ensures
        r@ == parsed_properties(content@),
        forall|i: int| 0 <= i < r@.len() ==> (#[trigger] r@[i]).0.len() > 0,
{
    proof {
        lemma_entries_of_lines_named(split_on(content@, '\n'));
    }
    let all = chars_of(content);
    let lines = split_chars(&all, '\n');
    let mut map = FlatMap::new();
    let mut i: usize = 0;
    let ghost pieces = lines@.map_values(|p: Vec<char>| p@);
    assert(pieces.take(0) =~= Seq::<Seq<char>>::empty());
    while i < lines.len()
        invariant
            i <= lines.len(),
            pieces == lines@.map_values(|p: Vec<char>| p@),
            map@ == entries_of_lines(pieces.take(i as int)),
        decreases lines.len() - i,
    {
        let line = trimmed(&lines[i]);
        proof {
            assert(pieces.take(i + 1).drop_last() =~= pieces.take(i as int));
            assert(pieces.take(i + 1).last() == lines@[i as int]@);
        }
        if !(line.len() == 0 || line[0] == '#' || line[0] == '!') {
            match parse_line_chars(&line) {
                Some((k, v)) => {
                    map.insert(string_of(&k), string_of(&v));
                },
                None => {},
            }
        }
        i += 1;
    }
    proof {
        assert(pieces.take(pieces.len() as int) == pieces);
    }
    map
}

/// Writes entries as a text in the flat line format.
pub fn write_properties(entries: &FlatMap) -> (r: String)
    ensures
        r@ == properties_text(entries@),
{
    let sorted = entries.sorted();
    let ghost es = sorted@.map_values(|e: FlatEntry| e@);
    let mut out: Vec<char> = Vec::new();
    let mut i: usize = 0;
    assert(es.take(0) =~= Seq::<(Seq<char>, Seq<char>)>::empty());
    while i < sorted.len()
        invariant
            i <= sorted.len(),
            es == sorted@.map_values(|e: FlatEntry| e@),
            out@ == joined_lines(es.take(i as int)),
        decreases sorted.len() - i,
    {
        let e = &sorted[i];
        let ghost before = out@;
        proof {
            assert(es.take(i + 1).drop_last() =~= es.take(i as int));
            assert(es.take(i + 1).last() == e@);
            if i == 0 {
                assert(es.take(1)[0] == e@);
            }
        }
        if i > 0 {
            out.push('\n');
        }
        let k = chars_of(escape_properties_key(e.key.as_str()).as_str());
        let v = chars_of(escape_properties_value(e.value.as_str()).as_str());
        push_all(&mut out, &k);
        out.push('=');
        push_all(&mut out, &v);
        proof {
            if i == 0 {
                assert(out@ =~= line_of(e@));
            } else {
                assert(out@ =~= before + seq!['\n'] + line_of(e@));
            }
        }
        i += 1;
    }
    proof {
        assert(es.take(es.len() as int) == es);
    }
    string_of(&out)
}

} // verus!
