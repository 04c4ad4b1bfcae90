//! Writing a text of the flat line format and reading it back.

use crate::escape::{escaped_key, escaped_value, key_unit};
use crate::flat::{
    distinct_keys, has_key, lemma_put_absent, lemma_sorted_by_key, lemma_sorted_keeps,
    ordered_by_key, sorted_by_key,
};
use crate::line_laws::{lemma_line_round_trip, lemma_trim_len, plain_value};
use crate::properties::{
    entries_of_lines, entry_of_line, is_skipped, joined_lines, line_of, parsed_properties,
    properties_text,
};
use crate::text::{is_whitespace, split_on, trim, trim_start};
use vstd::prelude::*;

verus! {

/// Whether an entry can be written as a line of its own and read back: the
/// line gives the entry back, is no comment, and holds no line feed.
pub open spec fn writable(e: (Seq<char>, Seq<char>)) -> bool {
    &&& e.0.len() > 0
    &&& trim(e.0) == e.0
    &&& trim(e.1) == e.1
    &&& plain_value(e.1)
    &&& e.0[0] != '#'
    &&& e.0[0] != '!'
    &&& !e.0.contains('\n')
}

/// Whether every entry can be written as a line and read back.
pub open spec fn all_writable(s: Seq<(Seq<char>, Seq<char>)>) -> bool {
    forall|i: int| 0 <= i < s.len() ==> writable(#[trigger] s[i])
}

/// A text that trimming leaves as it is has no white space at its start or
/// end.
pub proof fn lemma_trimmed_ends(s: Seq<char>)
    requires
        trim(s) == s,
        s.len() > 0,
    ensures
        !is_whitespace(s[0]),
        !is_whitespace(s.last()),
{
    lemma_trim_len(s);
    lemma_trim_len(s.drop_first());
    lemma_trim_len(s.drop_last());
    lemma_trim_len(trim_start(s));
    if is_whitespace(s[0]) {
        assert(trim_start(s) == trim_start(s.drop_first()));
        lemma_trim_len(trim_start(s.drop_first()));
    } else if is_whitespace(s.last()) {
        assert(trim_start(s) == s);
    }
}

/// A text without white space at its start and end is left as it is by
/// trimming.
pub proof fn lemma_trim_fixed(s: Seq<char>)
    requires
        s.len() > 0,
        !is_whitespace(s[0]),
        !is_whitespace(s.last()),
    ensures
        trim(s) == s,
{
}

/// A written key starts with a backslash or with the first character of the
/// key, and holds a line feed only where the key does.
pub proof fn lemma_written_key(k: Seq<char>)
    ensures
        k.len() > 0 ==> escaped_key(k).len() > 0 && (escaped_key(k)[0] == '\\' || escaped_key(k)[0]
            == k[0]),
        k.len() == 0 ==> escaped_key(k).len() == 0,
        !k.contains('\n') ==> !escaped_key(k).contains('\n'),
    decreases k.len(),
{
    if k.len() > 0 {
        let head = k.drop_last();
        lemma_written_key(head);
        let unit = key_unit(k.last());
        let w = escaped_key(k);
        assert(w == escaped_key(head) + unit);
        if head.len() == 0 {
            assert(w =~= unit);
            assert(k.last() == k[0]);
        } else {
            assert(w[0] == escaped_key(head)[0]);
            assert(head[0] == k[0]);
        }
        if !k.contains('\n') {
            assert(!head.contains('\n')) by {
                if head.contains('\n') {
                    let i = choose|i: int| 0 <= i < head.len() && head[i] == '\n';
                    assert(k[i] == '\n');
                }
            }
            assert(k[k.len() - 1] != '\n');
            if w.contains('\n') {
                let i = choose|i: int| 0 <= i < w.len() && w[i] == '\n';
                if i < escaped_key(head).len() {
                    assert(escaped_key(head)[i] == '\n');
                } else {
                    assert(unit[i - escaped_key(head).len()] == '\n');
                }
            }
        }
    }
}

/// A value without characters that take a backslash is written as it is.
pub proof fn lemma_written_plain_value(v: Seq<char>)
    requires
        plain_value(v),
    ensures
        escaped_value(v) == v,
    decreases v.len(),
{
    if v.len() > 0 {
        let head = v.drop_last();
        assert forall|i: int| 0 <= i < head.len() implies !crate::line_laws::is_escaped_in_value(
            #[trigger] head[i],
        ) by {
            assert(head[i] == v[i]);
        }
        lemma_written_plain_value(head);
        assert(!crate::line_laws::is_escaped_in_value(v[v.len() - 1]));
        assert(escaped_value(v) =~= v);
    } else {
        assert(escaped_value(v) =~= v);
    }
}

/// The line of a writable entry is read back as that entry.
pub proof fn lemma_writable_line(e: (Seq<char>, Seq<char>))
    requires
        writable(e),
    ensures
        entry_of_line(line_of(e)) == Some(e),
        !line_of(e).contains('\n'),
{
    let line = line_of(e);
    lemma_written_key(e.0);
    lemma_written_plain_value(e.1);
    lemma_trimmed_ends(e.0);
    let wk = escaped_key(e.0);
    assert(line[0] == wk[0]);
    assert(!is_whitespace(line[0]));
    if e.1.len() > 0 {
        lemma_trimmed_ends(e.1);
        assert(line.last() == e.1.last());
    } else {
        assert(line.last() == '=');
    }
    lemma_trim_fixed(line);
    lemma_line_round_trip(e.0, e.1);
    assert(!is_skipped(line));
    if line.contains('\n') {
        let i = choose|i: int| 0 <= i < line.len() && line[i] == '\n';
        if i < wk.len() {
            assert(wk[i] == '\n');
        } else if i == wk.len() {
        } else {
            assert(e.1[i - wk.len() - 1] == '\n');
        }
    }
}

/// A text without the separator is one piece.
pub proof fn lemma_split_one(s: Seq<char>, sep: char)
    requires
        !s.contains(sep),
    ensures
        split_on(s, sep) == seq![s],
    decreases s.len(),
{
    if s.len() == 0 {
        assert(s =~= Seq::<char>::empty());
    } else {
        let head = s.drop_last();
        assert(!head.contains(sep)) by {
            if head.contains(sep) {
                let i = choose|i: int| 0 <= i < head.len() && head[i] == sep;
                assert(s[i] == sep);
            }
        }
        assert(s[s.len() - 1] != sep);
        lemma_split_one(head, sep);
        assert(head.push(s.last()) =~= s);
        let before = seq![head];
        assert(before.drop_last() =~= Seq::<Seq<char>>::empty());
        assert(before.last() == head);
        assert(before.drop_last().push(before.last().push(s.last())) =~= seq![s]);
    }
}

/// Behind a separator, a text without the separator is one more piece.
pub proof fn lemma_split_append(a: Seq<char>, b: Seq<char>, sep: char)
    requires
        !b.contains(sep),
    ensures
        split_on(a + seq![sep] + b, sep) == split_on(a, sep).push(b),
    decreases b.len(),
{
    let whole = a + seq![sep] + b;
    if b.len() == 0 {
        assert(whole.drop_last() =~= a);
        assert(whole.last() == sep);
        assert(b =~= Seq::<char>::empty());
    } else {
        let head = b.drop_last();
        assert(!head.contains(sep)) by {
            if head.contains(sep) {
                let i = choose|i: int| 0 <= i < head.len() && head[i] == sep;
                assert(b[i] == sep);
            }
        }
        assert(b[b.len() - 1] != sep);
        lemma_split_append(a, head, sep);
        assert(whole.drop_last() =~= a + seq![sep] + head);
        assert(whole.last() == b.last());
        assert(head.push(b.last()) =~= b);
        let before = split_on(a, sep).push(head);
        assert(before.drop_last() =~= split_on(a, sep));
        assert(split_on(whole, sep) =~= split_on(a, sep).push(b));
    }
}

/// The lines of the entries `s`.
pub open spec fn lines_of(s: Seq<(Seq<char>, Seq<char>)>) -> Seq<Seq<char>> {
    s.map_values(|e: (Seq<char>, Seq<char>)| line_of(e))
}

/// Splitting the written entries at the line feeds gives their lines.
pub proof fn lemma_split_joined_lines(s: Seq<(Seq<char>, Seq<char>)>)
    requires
        s.len() > 0,
        all_writable(s),
    ensures
        split_on(joined_lines(s), '\n') == lines_of(s),
    decreases s.len(),
{
    lemma_writable_line(s.last());
    if s.len() == 1 {
        lemma_split_one(line_of(s[0]), '\n');
        assert(lines_of(s) =~= seq![line_of(s[0])]);
    } else {
        let head = s.drop_last();
        assert forall|i: int| 0 <= i < head.len() implies writable(#[trigger] head[i]) by {
            assert(head[i] == s[i]);
        }
        lemma_split_joined_lines(head);
        lemma_split_append(joined_lines(head), line_of(s.last()), '\n');
        assert(lines_of(s) =~= lines_of(head).push(line_of(s.last())));
    }
}

/// Reading the lines of writable entries with distinct keys gives the
/// entries.
pub proof fn lemma_entries_of_written_lines(s: Seq<(Seq<char>, Seq<char>)>)
    requires
        distinct_keys(s),
        all_writable(s),
    ensures
        entries_of_lines(lines_of(s)) == s,
    decreases s.len(),
{
    if s.len() == 0 {
        assert(lines_of(s) =~= Seq::<Seq<char>>::empty());
        assert(entries_of_lines(lines_of(s)) =~= s);
    } else {
        let head = s.drop_last();
        assert forall|i: int| 0 <= i < head.len() implies writable(#[trigger] head[i]) by {
            assert(head[i] == s[i]);
        }
        assert forall|i: int, j: int| 0 <= i < j < head.len() implies (#[trigger] head[i]).0 != (
        #[trigger] head[j]).0 by {
            assert(head[i] == s[i] && head[j] == s[j]);
        }
        lemma_entries_of_written_lines(head);
        lemma_writable_line(s.last());
        assert(lines_of(s).drop_last() =~= lines_of(head));
        assert(lines_of(s).last() == line_of(s.last()));
        assert(!has_key(head, s.last().0)) by {
            if has_key(head, s.last().0) {
                let i = choose|i: int| 0 <= i < head.len() && (#[trigger] head[i]).0 == s.last().0;
                assert(head[i] == s[i]);
                assert(s[i].0 != s[s.len() - 1].0);
            }
        }
        lemma_put_absent(head, s.last().0, s.last().1);
        assert(head.push(s.last()) =~= s);
    }
}

/// Reading what was written for writable entries with distinct keys gives
/// the entries back.
pub proof fn lemma_read_written_entries(s: Seq<(Seq<char>, Seq<char>)>)
    requires
        distinct_keys(s),
        all_writable(s),
    ensures
        parsed_properties(joined_lines(s)) == s,
{
    if s.len() == 0 {
        let none = Seq::<char>::empty();
        assert(joined_lines(s) == none);
        assert(split_on(none, '\n') == seq![none]);
        assert(seq![none].drop_last() =~= Seq::<Seq<char>>::empty());
        assert(trim(none) == none);
        assert(entry_of_line(none) is None);
        assert(entries_of_lines(seq![none].drop_last()) =~= Seq::<
            (Seq<char>, Seq<char>),
        >::empty());
        assert(entries_of_lines(seq![none]) =~= s);
    } else {
        lemma_split_joined_lines(s);
        lemma_entries_of_written_lines(s);
    }
}

/// Entries that stand in the order of their keys are sorted already.
pub proof fn lemma_sorted_fixed<V>(s: Seq<(Seq<char>, V)>)
    requires
        ordered_by_key(s),
    ensures
        sorted_by_key(s) == s,
    decreases s.len(),
{
    if s.len() > 0 {
        let head = s.drop_last();
        assert forall|i: int, j: int| 0 <= i < j < head.len() implies crate::text::text_le(
            (#[trigger] head[i]).0,
            (#[trigger] head[j]).0,
        ) by {
            assert(head[i] == s[i] && head[j] == s[j]);
        }
        lemma_sorted_fixed(head);
        if head.len() > 0 {
            assert(head.last() == s[s.len() - 2]);
            assert(crate::text::text_le(s[s.len() - 2].0, s[s.len() - 1].0));
        }
        assert(head.push(s.last()) =~= s);
    }
}

/// Reading what was written gives the entries back, in the order of their
/// keys; and writing those again gives the very same text.
pub proof fn lemma_text_stable(s: Seq<(Seq<char>, Seq<char>)>)
    requires
        distinct_keys(s),
        all_writable(s),
    ensures
        parsed_properties(properties_text(s)) == sorted_by_key(s),
        properties_text(parsed_properties(properties_text(s))) == properties_text(s),
{
    let sorted = sorted_by_key(s);
    lemma_sorted_by_key(s);
    lemma_sorted_keeps(s, |e: (Seq<char>, Seq<char>)| writable(e));
    lemma_read_written_entries(sorted);
    lemma_sorted_fixed(sorted);
}

} // verus!
