//! What reading a written line gives back.

use crate::escape::{escaped_key, escaped_value, key_unit, unescaped, value_unit};
use crate::line::{parsed_line, scan, scan_start, scan_step, LineScan};
use crate::properties::line_of;
use crate::text::{trim, trim_end, trim_start};
use vstd::prelude::*;

verus! {

/// The scan that starts at `st` and reads all the characters of `s`.
pub open spec fn scan_from(st: LineScan, s: Seq<char>) -> LineScan
    decreases s.len(),
{
    if s.len() == 0 {
        st
    } else {
        scan_step(scan_from(st, s.drop_last()), s.last())
    }
}

/// Scanning a text is scanning its start and then the rest.
pub proof fn lemma_scan_from_concat(st: LineScan, a: Seq<char>, b: Seq<char>)
    ensures
        scan_from(st, a + b) == scan_from(scan_from(st, a), b),
    decreases b.len(),
{
    if b.len() == 0 {
        assert(a + b =~= a);
    } else {
        assert((a + b).drop_last() =~= a + b.drop_last());
        lemma_scan_from_concat(st, a, b.drop_last());
    }
}

/// A scan from the start is the scan of the text.
pub proof fn lemma_scan_from_start(s: Seq<char>)
    ensures
        scan_from(scan_start(), s) == scan(s),
    decreases s.len(),
{
    if s.len() > 0 {
        lemma_scan_from_start(s.drop_last());
    }
}

/// Scanning one character is one step.
proof fn lemma_scan_one(st: LineScan, c: char)
    ensures
        scan_from(st, seq![c]) == scan_step(st, c),
{
    assert(seq![c].drop_last() =~= Seq::<char>::empty());
    assert(scan_from(st, seq![c].drop_last()) == st);
}

/// Scanning two characters is two steps.
proof fn lemma_scan_two(st: LineScan, a: char, b: char)
    ensures
        scan_from(st, seq![a, b]) == scan_step(scan_step(st, a), b),
{
    assert(seq![a, b].drop_last() =~= seq![a]);
    lemma_scan_one(st, a);
}

/// Whether writing `c` in a value takes a backslash.
pub open spec fn is_escaped_in_value(c: char) -> bool {
    c == '\\' || c == '\n' || c == '\r'
}

/// Whether no character of `v` takes a backslash when written in a value.
pub open spec fn plain_value(v: Seq<char>) -> bool {
    forall|i: int| 0 <= i < v.len() ==> !is_escaped_in_value(#[trigger] v[i])
}

/// The characters that a written value leaves in the key when it is read
/// back: for each escape the character behind the backslash.
pub open spec fn strays(v: Seq<char>) -> Seq<char>
    decreases v.len(),
{
    if v.len() == 0 {
        Seq::empty()
    } else if is_escaped_in_value(v.last()) {
        strays(v.drop_last()).push(value_unit(v.last())[1])
    } else {
        strays(v.drop_last())
    }
}

/// The characters of a written value that are read back into the value:
/// those that were written without a backslash.
pub open spec fn survivors(v: Seq<char>) -> Seq<char>
    decreases v.len(),
{
    if v.len() == 0 {
        Seq::empty()
    } else if is_escaped_in_value(v.last()) {
        survivors(v.drop_last())
    } else {
        survivors(v.drop_last()).push(v.last())
    }
}

/// Scanning a written key before the delimiter reads the key back.
pub proof fn lemma_scan_written_key(st: LineScan, k: Seq<char>)
    requires
        !st.escaped,
        st.in_key,
    ensures
        scan_from(st, escaped_key(k)) == (LineScan { key: st.key + k, ..st }),
    decreases k.len(),
{
    if k.len() == 0 {
        assert(st.key + k =~= st.key);
    } else {
        let head = k.drop_last();
        let c = k.last();
        lemma_scan_written_key(st, head);
        lemma_scan_from_concat(st, escaped_key(head), key_unit(c));
        let mid = LineScan { key: st.key + head, ..st };
        let unit = key_unit(c);
        if c == '\\' || c == '=' || c == ':' || c == ' ' {
            assert(unit =~= seq!['\\', c]);
            lemma_scan_two(mid, '\\', c);
        } else {
            assert(unit =~= seq![c]);
            lemma_scan_one(mid, c);
        }
        assert((st.key + head).push(c) =~= st.key + k);
    }
}

/// Scanning a written value behind the delimiter reads into the value what
/// was written without a backslash, and into the key what stood behind one.
pub proof fn lemma_scan_written_value(st: LineScan, v: Seq<char>)
    requires
        !st.escaped,
        !st.in_key,
    ensures
        scan_from(st, escaped_value(v)) == (LineScan {
            key: st.key + strays(v),
            value: st.value + survivors(v),
            ..st
        }),
    decreases v.len(),
{
    if v.len() == 0 {
        assert(st.key + strays(v) =~= st.key);
        assert(st.value + survivors(v) =~= st.value);
    } else {
        let head = v.drop_last();
        let c = v.last();
        lemma_scan_written_value(st, head);
        lemma_scan_from_concat(st, escaped_value(head), value_unit(c));
        let mid = LineScan { key: st.key + strays(head), value: st.value + survivors(head), ..st };
        let unit = value_unit(c);
        if is_escaped_in_value(c) {
            assert(unit =~= seq!['\\', unit[1]]);
            lemma_scan_two(mid, '\\', unit[1]);
            assert((st.key + strays(head)).push(unit[1]) =~= st.key + strays(v));
        } else {
            assert(unit =~= seq![c]);
            lemma_scan_one(mid, c);
            assert((st.value + survivors(head)).push(c) =~= st.value + survivors(v));
        }
    }
}

/// What reading a written entry gives: the key with the strays of the value
/// behind it, and what survives of the value, each without the white space
/// around it; nothing where that key is then empty.
pub proof fn lemma_read_written_line(k: Seq<char>, v: Seq<char>)
    ensures
        parsed_line(line_of((k, v))) == if trim(k + strays(v)).len() == 0 {
            None
        } else {
            Some((trim(k + strays(v)), trim(survivors(v))))
        },
{
    let start = scan_start();
    let line = line_of((k, v));
    lemma_scan_from_start(line);
    lemma_scan_written_key(start, k);
    let after_key = LineScan { key: start.key + k, ..start };
    assert(start.key + k =~= k);
    let after_delimiter = LineScan { in_key: false, ..after_key };
    lemma_scan_one(after_key, '=');
    lemma_scan_from_concat(start, escaped_key(k), seq!['=']);
    lemma_scan_written_value(after_delimiter, v);
    lemma_scan_from_concat(start, escaped_key(k) + seq!['='], escaped_value(v));
    assert(after_delimiter.value + survivors(v) =~= survivors(v));
}

/// A value without characters that take a backslash leaves no strays and
/// survives whole; any other value loses a character.
pub proof fn lemma_survivors(v: Seq<char>)
    ensures
        survivors(v).len() <= v.len(),
        plain_value(v) ==> strays(v) == Seq::<char>::empty() && survivors(v) == v,
        !plain_value(v) ==> survivors(v).len() < v.len(),
    decreases v.len(),
{
    if v.len() > 0 {
        let head = v.drop_last();
        lemma_survivors(head);
        if plain_value(v) {
            assert forall|i: int| 0 <= i < head.len() implies !is_escaped_in_value(
                #[trigger] head[i],
            ) by {
                assert(head[i] == v[i]);
            }
            assert(!is_escaped_in_value(v[v.len() - 1]));
            assert(survivors(v) =~= v);
        } else {
            if !is_escaped_in_value(v.last()) {
                assert(!plain_value(head)) by {
                    if plain_value(head) {
                        assert forall|i: int| 0 <= i < v.len() implies !is_escaped_in_value(
                            #[trigger] v[i],
                        ) by {
                            if i < head.len() {
                                assert(head[i] == v[i]);
                            }
                        }
                    }
                }
            }
        }
    }
}

/// Trimming does not make a text longer.
pub proof fn lemma_trim_len(s: Seq<char>)
    ensures
        trim_start(s).len() <= s.len(),
        trim_end(s).len() <= s.len(),
        trim(s).len() <= s.len(),
    decreases s.len(),
{
    if s.len() > 0 {
        lemma_trim_len(s.drop_first());
        lemma_trim_len(s.drop_last());
    }
    lemma_trim_end_len(trim_start(s));
}

/// Trimming the end does not make a text longer.
proof fn lemma_trim_end_len(s: Seq<char>)
    ensures
        trim_end(s).len() <= s.len(),
    decreases s.len(),
{
    if s.len() > 0 {
        lemma_trim_end_len(s.drop_last());
    }
}

/// A written entry is read back as it was exactly where its key is not empty,
/// neither key nor value has white space at its start or end, and no
/// character of the value takes a backslash.
pub proof fn lemma_line_round_trip(k: Seq<char>, v: Seq<char>)
    ensures
        parsed_line(line_of((k, v))) == Some((k, v)) <==> (k.len() > 0 && trim(k) == k && trim(v)
            == v && plain_value(v)),
{
    lemma_read_written_line(k, v);
    lemma_survivors(v);
    lemma_trim_len(survivors(v));
    if plain_value(v) {
        assert(k + strays(v) =~= k);
    }
}

/// Undoing the escapes of a written value gives the value back, whatever it
/// holds.
pub proof fn lemma_unescape_written_value(v: Seq<char>)
    ensures
        unescaped(escaped_value(v)) == v,
    decreases v.len(),
{
    if v.len() > 0 {
        let head = v.drop_last();
        lemma_unescape_written_value(head);
        lemma_unescaped_append(escaped_value(head), value_unit(v.last()));
        let unit = value_unit(v.last());
        assert(unescaped(unit) =~= seq![v.last()]) by {
            if is_escaped_in_value(v.last()) {
                assert(unit.skip(2) =~= Seq::<char>::empty());
                assert(unescaped(unit.skip(2)) =~= Seq::<char>::empty());
            } else {
                assert(unit.skip(1) =~= Seq::<char>::empty());
                assert(unescaped(unit.skip(1)) =~= Seq::<char>::empty());
            }
        }
        assert(head + seq![v.last()] =~= v);
    }
}

/// Whether `s` ends inside an escape: behind a backslash that is not itself
/// escaped.
pub open spec fn ends_open(s: Seq<char>) -> bool
    decreases s.len(),
{
    if s.len() == 0 {
        false
    } else if s[0] != '\\' {
        ends_open(s.skip(1))
    } else if s.len() == 1 {
        true
    } else {
        ends_open(s.skip(2))
    }
}

/// The escapes of a written value are all closed.
proof fn lemma_written_value_closed(v: Seq<char>)
    ensures
        !ends_open(escaped_value(v)),
    decreases v.len(),
{
    if v.len() > 0 {
        lemma_written_value_closed(v.drop_last());
        lemma_ends_open_append(escaped_value(v.drop_last()), value_unit(v.last()));
        let unit = value_unit(v.last());
        if is_escaped_in_value(v.last()) {
            assert(unit.skip(2) =~= Seq::<char>::empty());
            assert(!ends_open(unit.skip(2)));
        } else {
            assert(unit.skip(1) =~= Seq::<char>::empty());
            assert(!ends_open(unit.skip(1)));
        }
    }
}

/// Behind a text whose escapes are closed, a text ends open as it does alone.
proof fn lemma_ends_open_append(a: Seq<char>, b: Seq<char>)
    requires
        !ends_open(a),
    ensures
        ends_open(a + b) == ends_open(b),
    decreases a.len(),
{
    if a.len() == 0 {
        assert(a + b =~= b);
    } else if a[0] != '\\' {
        assert((a + b).skip(1) =~= a.skip(1) + b);
        lemma_ends_open_append(a.skip(1), b);
    } else {
        assert(a.len() >= 2);
        assert((a + b).skip(2) =~= a.skip(2) + b);
        lemma_ends_open_append(a.skip(2), b);
    }
}

/// Behind a text whose escapes are closed, the escapes of a text are undone
/// as they are alone.
proof fn lemma_unescaped_append_closed(a: Seq<char>, b: Seq<char>)
    requires
        !ends_open(a),
    ensures
        unescaped(a + b) == unescaped(a) + unescaped(b),
    decreases a.len(),
{
    if a.len() == 0 {
        assert(a + b =~= b);
        assert(unescaped(a) + unescaped(b) =~= unescaped(b));
    } else if a[0] != '\\' {
        assert((a + b).skip(1) =~= a.skip(1) + b);
        lemma_unescaped_append_closed(a.skip(1), b);
        assert(seq![a[0]] + (unescaped(a.skip(1)) + unescaped(b)) =~= (seq![a[0]] + unescaped(
            a.skip(1),
        )) + unescaped(b));
    } else {
        assert(a.len() >= 2);
        assert((a + b).skip(2) =~= a.skip(2) + b);
        lemma_unescaped_append_closed(a.skip(2), b);
        assert(seq![crate::escape::escape_meaning(a[1])] + (unescaped(a.skip(2)) + unescaped(b))
            =~= (seq![crate::escape::escape_meaning(a[1])] + unescaped(a.skip(2))) + unescaped(b));
    }
}

/// Behind a written value, the escapes of a text are undone as they are
/// alone.
proof fn lemma_unescaped_append(a: Seq<char>, b: Seq<char>)
    requires
        exists|v: Seq<char>| a == escaped_value(v),
    ensures
        unescaped(a + b) == unescaped(a) + unescaped(b),
{
    let v = choose|v: Seq<char>| a == escaped_value(v);
    lemma_written_value_closed(v);
    lemma_unescaped_append_closed(a, b);
}

} // verus!
