//! Flat entries: dotted keys with their raw text, kept in the order in which
//! the keys first came.

use crate::text::{
    chars_of, lemma_text_le_total, lemma_text_le_transitive, same_str, text_at_most, text_le,
};
use vstd::prelude::*;

verus! {

/// Whether no key occurs twice among the entries `s`.
pub open spec fn distinct_keys<V>(s: Seq<(Seq<char>, V)>) -> bool {
    forall|i: int, j: int| 0 <= i < j < s.len() ==> (#[trigger] s[i]).0 != (#[trigger] s[j]).0
}

/// Whether `k` is the key of one of the entries `s`.
pub open spec fn has_key<V>(s: Seq<(Seq<char>, V)>, k: Seq<char>) -> bool {
    exists|i: int| 0 <= i < s.len() && (#[trigger] s[i]).0 == k
}

/// The entries `s` after `v` is stored under `k`: the first entry with that
/// key keeps its place and takes the new value; where there is none, the new
/// entry comes last.
pub open spec fn put<V>(s: Seq<(Seq<char>, V)>, k: Seq<char>, v: V) -> Seq<(Seq<char>, V)>
    decreases s.len(),
{
    if s.len() == 0 {
        seq![(k, v)]
    } else if s[0].0 == k {
        seq![(k, v)] + s.drop_first()
    } else {
        seq![s[0]] + put(s.drop_first(), k, v)
    }
}

/// The entries `s` after each entry of `more` is stored in turn.
pub open spec fn put_all<V>(s: Seq<(Seq<char>, V)>, more: Seq<(Seq<char>, V)>) -> Seq<
    (Seq<char>, V),
>
    decreases more.len(),
{
    if more.len() == 0 {
        s
    } else {
        put(put_all(s, more.drop_last()), more.last().0, more.last().1)
    }
}

/// Storing under a key that no entry has appends the entry.
pub proof fn lemma_put_absent<V>(s: Seq<(Seq<char>, V)>, k: Seq<char>, v: V)
    requires
        !has_key(s, k),
    ensures
        put(s, k, v) == s.push((k, v)),
    decreases s.len(),
{
    if s.len() == 0 {
        assert(put(s, k, v) =~= s.push((k, v)));
    } else {
        assert(s[0].0 != k);
        assert(!has_key(s.drop_first(), k)) by {
            if has_key(s.drop_first(), k) {
                let i = choose|i: int|
                    0 <= i < s.drop_first().len() && (#[trigger] s.drop_first()[i]).0 == k;
                assert(s[i + 1].0 == k);
            }
        }
        lemma_put_absent(s.drop_first(), k, v);
        assert(put(s, k, v) =~= s.push((k, v)));
    }
}

/// Storing under the key of entry `i`, the first with that key, replaces its value.
pub proof fn lemma_put_present<V>(s: Seq<(Seq<char>, V)>, i: int, v: V)
    requires
        0 <= i < s.len(),
        forall|j: int| 0 <= j < i ==> (#[trigger] s[j]).0 != s[i].0,
    ensures
        put(s, s[i].0, v) == s.update(i, (s[i].0, v)),
    decreases s.len(),
{
    if i == 0 {
        assert(put(s, s[i].0, v) =~= s.update(i, (s[i].0, v)));
    } else {
        assert(s[0].0 != s[i].0);
        let rest = s.drop_first();
        assert(rest[i - 1] == s[i]);
        assert forall|j: int| 0 <= j < i - 1 implies (#[trigger] rest[j]).0 != rest[i - 1].0 by {
            assert(rest[j] == s[j + 1]);
        }
        lemma_put_present(rest, i - 1, v);
        assert(put(s, s[i].0, v) =~= s.update(i, (s[i].0, v)));
    }
}

/// Storing an entry keeps the keys distinct, keeps the keys that were there
/// and adds the new one.
pub proof fn lemma_put_keys<V>(s: Seq<(Seq<char>, V)>, k: Seq<char>, v: V)
    requires
        distinct_keys(s),
    ensures
        distinct_keys(put(s, k, v)),
        forall|x: Seq<char>| has_key(put(s, k, v), x) <==> (x == k || has_key(s, x)),
{
    let r = put(s, k, v);
    if has_key(s, k) {
        let i = choose|i: int| 0 <= i < s.len() && (#[trigger] s[i]).0 == k;
        assert forall|j: int| 0 <= j < i implies (#[trigger] s[j]).0 != s[i].0 by {}
        lemma_put_present(s, i, v);
        assert(r == s.update(i, (k, v)));
        assert forall|x: Seq<char>| has_key(r, x) <==> (x == k || has_key(s, x)) by {
            if has_key(r, x) {
                let j = choose|j: int| 0 <= j < r.len() && (#[trigger] r[j]).0 == x;
                assert(s[j].0 == x);
            }
            if has_key(s, x) {
                let j = choose|j: int| 0 <= j < s.len() && (#[trigger] s[j]).0 == x;
                assert(r[j].0 == x);
            }
            if x == k {
                assert(r[i].0 == k);
            }
        }
        assert forall|a: int, b: int| 0 <= a < b < r.len() implies (#[trigger] r[a]).0 != (
        #[trigger] r[b]).0 by {
            assert(r[a].0 == s[a].0 && r[b].0 == s[b].0);
        }
    } else {
        lemma_put_absent(s, k, v);
        assert forall|x: Seq<char>| has_key(r, x) <==> (x == k || has_key(s, x)) by {
            if has_key(r, x) {
                let j = choose|j: int| 0 <= j < r.len() && (#[trigger] r[j]).0 == x;
                if j < s.len() {
                    assert(s[j].0 == x);
                }
            }
            if has_key(s, x) {
                let j = choose|j: int| 0 <= j < s.len() && (#[trigger] s[j]).0 == x;
                assert(r[j].0 == x);
            }
            if x == k {
                assert(r[s.len() as int].0 == k);
            }
        }
        assert forall|a: int, b: int| 0 <= a < b < r.len() implies (#[trigger] r[a]).0 != (
        #[trigger] r[b]).0 by {
            if b == s.len() {
                assert(r[a] == s[a]);
            } else {
                assert(r[a] == s[a] && r[b] == s[b]);
            }
        }
    }
}

/// Every entry after a `put` is the new entry or one that was there.
pub proof fn lemma_put_entries<V>(s: Seq<(Seq<char>, V)>, k: Seq<char>, v: V)
    ensures
        forall|i: int|
            0 <= i < put(s, k, v).len() ==> (#[trigger] put(s, k, v)[i] == (k, v) || exists|j: int|
                0 <= j < s.len() && put(s, k, v)[i] == s[j]),
    decreases s.len(),
{
    let r = put(s, k, v);
    if s.len() == 0 {
    } else if s[0].0 == k {
        assert forall|i: int| 0 <= i < r.len() implies (#[trigger] r[i] == (k, v) || exists|j: int|
            0 <= j < s.len() && r[i] == s[j]) by {
            if i > 0 {
                assert(r[i] == s[i]);
            }
        }
    } else {
        lemma_put_entries(s.drop_first(), k, v);
        let inner = put(s.drop_first(), k, v);
        assert forall|i: int| 0 <= i < r.len() implies (#[trigger] r[i] == (k, v) || exists|j: int|
            0 <= j < s.len() && r[i] == s[j]) by {
            if i == 0 {
                assert(r[0] == s[0]);
            } else {
                assert(r[i] == inner[i - 1]);
                if inner[i - 1] != (k, v) {
                    let j = choose|j: int|
                        0 <= j < s.drop_first().len() && inner[i - 1] == s.drop_first()[j];
                    assert(r[i] == s[j + 1]);
                }
            }
        }
    }
}

/// Storing entries one after another keeps the keys distinct.
pub proof fn lemma_put_all_distinct<V>(s: Seq<(Seq<char>, V)>, more: Seq<(Seq<char>, V)>)
    requires
        distinct_keys(s),
    ensures
        distinct_keys(put_all(s, more)),
    decreases more.len(),
{
    if more.len() > 0 {
        lemma_put_all_distinct(s, more.drop_last());
        lemma_put_keys(put_all(s, more.drop_last()), more.last().0, more.last().1);
    }
}

/// Whether the keys of the entries `s` stand in the order of texts.
pub open spec fn ordered_by_key<V>(s: Seq<(Seq<char>, V)>) -> bool {
    forall|i: int, j: int| 0 <= i < j < s.len() ==> text_le((#[trigger] s[i]).0, (#[trigger] s[j]).0)
}

/// The ordered entries `s` with `e` put in its place: behind every entry
/// whose key is at most its own.
pub open spec fn insert_ordered<V>(s: Seq<(Seq<char>, V)>, e: (Seq<char>, V)) -> Seq<
    (Seq<char>, V),
>
    decreases s.len(),
{
    if s.len() == 0 || text_le(s.last().0, e.0) {
        s.push(e)
    } else {
        insert_ordered(s.drop_last(), e).push(s.last())
    }
}

/// The entries `s` in the order of their keys; entries with the same key keep
/// their order.
pub open spec fn sorted_by_key<V>(s: Seq<(Seq<char>, V)>) -> Seq<(Seq<char>, V)>
    decreases s.len(),
{
    if s.len() == 0 {
        s
    } else {
        insert_ordered(sorted_by_key(s.drop_last()), s.last())
    }
}

/// Putting an entry in its place keeps the order and adds just that entry.
pub proof fn lemma_insert_ordered<V>(s: Seq<(Seq<char>, V)>, e: (Seq<char>, V))
    requires
        ordered_by_key(s),
    ensures
        ordered_by_key(insert_ordered(s, e)),
        insert_ordered(s, e).len() == s.len() + 1,
        insert_ordered(s, e).to_multiset() == s.to_multiset().insert(e),
        forall|i: int|
            0 <= i < s.len() + 1 ==> (#[trigger] insert_ordered(s, e)[i] == e || exists|j: int|
                0 <= j < s.len() && insert_ordered(s, e)[i] == s[j]),
    decreases s.len(),
{
    broadcast use vstd::seq_lib::group_to_multiset_ensures;

    let r = insert_ordered(s, e);
    if s.len() == 0 || text_le(s.last().0, e.0) {
        assert forall|i: int, j: int| 0 <= i < j < r.len() implies text_le(
            (#[trigger] r[i]).0,
            (#[trigger] r[j]).0,
        ) by {
            if j == s.len() {
                assert(r[i] == s[i]);
                if i < s.len() - 1 {
                    assert(text_le(s[i].0, s[s.len() - 1].0));
                    lemma_text_le_transitive(s[i].0, s.last().0, e.0);
                }
            } else {
                assert(r[i] == s[i] && r[j] == s[j]);
            }
        }
        assert forall|i: int| 0 <= i < s.len() + 1 implies (#[trigger] r[i] == e || exists|j: int|
            0 <= j < s.len() && r[i] == s[j]) by {
            if i < s.len() {
                assert(r[i] == s[i]);
            }
        }
    } else {
        let head = s.drop_last();
        assert forall|i: int, j: int| 0 <= i < j < head.len() implies text_le(
            (#[trigger] head[i]).0,
            (#[trigger] head[j]).0,
        ) by {
            assert(head[i] == s[i] && head[j] == s[j]);
        }
        lemma_insert_ordered(head, e);
        let mid = insert_ordered(head, e);
        lemma_text_le_total(s.last().0, e.0);
        assert forall|i: int, j: int| 0 <= i < j < r.len() implies text_le(
            (#[trigger] r[i]).0,
            (#[trigger] r[j]).0,
        ) by {
            if j == mid.len() {
                assert(r[i] == mid[i]);
                if mid[i] == e {
                } else {
                    let k = choose|k: int| 0 <= k < head.len() && mid[i] == head[k];
                    assert(head[k] == s[k]);
                    assert(text_le(s[k].0, s[s.len() - 1].0));
                }
            } else {
                assert(r[i] == mid[i] && r[j] == mid[j]);
            }
        }
        assert(s =~= head.push(s.last()));
        assert(r.to_multiset() =~= s.to_multiset().insert(e));
        assert forall|i: int| 0 <= i < s.len() + 1 implies (#[trigger] r[i] == e || exists|j: int|
            0 <= j < s.len() && r[i] == s[j]) by {
            if i < mid.len() {
                assert(r[i] == mid[i]);
                if mid[i] != e {
                    let k = choose|k: int| 0 <= k < head.len() && mid[i] == head[k];
                    assert(head[k] == s[k]);
                }
            } else {
                assert(r[i] == s[s.len() - 1]);
            }
        }
    }
}

/// Sorting gives the same entries, in the order of their keys.
pub proof fn lemma_sorted_by_key<V>(s: Seq<(Seq<char>, V)>)
    ensures
        ordered_by_key(sorted_by_key(s)),
        sorted_by_key(s).len() == s.len(),
        sorted_by_key(s).to_multiset() == s.to_multiset(),
    decreases s.len(),
{
    broadcast use vstd::seq_lib::group_to_multiset_ensures;

    if s.len() > 0 {
        lemma_sorted_by_key(s.drop_last());
        lemma_insert_ordered(sorted_by_key(s.drop_last()), s.last());
        assert(s =~= s.drop_last().push(s.last()));
    }
}

/// Putting an entry with a new key in its place keeps the keys distinct, and
/// keeps of every entry what `holds` says of it.
pub proof fn lemma_insert_ordered_keeps<V>(
    s: Seq<(Seq<char>, V)>,
    e: (Seq<char>, V),
    holds: spec_fn((Seq<char>, V)) -> bool,
)
    requires
        distinct_keys(s),
        !has_key(s, e.0),
        holds(e),
        forall|i: int| 0 <= i < s.len() ==> holds(#[trigger] s[i]),
    ensures
        distinct_keys(insert_ordered(s, e)),
        forall|x: Seq<char>| has_key(insert_ordered(s, e), x) <==> (x == e.0 || has_key(s, x)),
        forall|i: int| 0 <= i < insert_ordered(s, e).len() ==> holds(#[trigger] insert_ordered(s, e)[i]),
    decreases s.len(),
{
    let r = insert_ordered(s, e);
    if s.len() == 0 || text_le(s.last().0, e.0) {
        assert forall|a: int, b: int| 0 <= a < b < r.len() implies (#[trigger] r[a]).0 != (
        #[trigger] r[b]).0 by {
            if b == s.len() {
                assert(r[a] == s[a]);
            } else {
                assert(r[a] == s[a] && r[b] == s[b]);
            }
        }
        assert forall|x: Seq<char>| has_key(r, x) <==> (x == e.0 || has_key(s, x)) by {
            if has_key(r, x) {
                let j = choose|j: int| 0 <= j < r.len() && (#[trigger] r[j]).0 == x;
                if j < s.len() {
                    assert(s[j].0 == x);
                }
            }
            if has_key(s, x) {
                let j = choose|j: int| 0 <= j < s.len() && (#[trigger] s[j]).0 == x;
                assert(r[j].0 == x);
            }
            if x == e.0 {
                assert(r[s.len() as int].0 == x);
            }
        }
        assert forall|i: int| 0 <= i < r.len() implies holds(#[trigger] r[i]) by {
            if i < s.len() {
                assert(r[i] == s[i]);
            }
        }
    } else {
        let head = s.drop_last();
        let last = s.last();
        assert forall|a: int, b: int| 0 <= a < b < head.len() implies (#[trigger] head[a]).0 != (
        #[trigger] head[b]).0 by {
            assert(head[a] == s[a] && head[b] == s[b]);
        }
        assert(!has_key(head, e.0)) by {
            if has_key(head, e.0) {
                let j = choose|j: int| 0 <= j < head.len() && (#[trigger] head[j]).0 == e.0;
                assert(s[j].0 == e.0);
            }
        }
        assert forall|i: int| 0 <= i < head.len() implies holds(#[trigger] head[i]) by {
            assert(head[i] == s[i]);
        }
        lemma_insert_ordered_keeps(head, e, holds);
        let mid = insert_ordered(head, e);
        assert(r == mid.push(last));
        assert(!has_key(mid, last.0)) by {
            if has_key(head, last.0) {
                let j = choose|j: int| 0 <= j < head.len() && (#[trigger] head[j]).0 == last.0;
                assert(s[j].0 == s[s.len() - 1].0);
            }
            assert(s[s.len() - 1].0 == last.0);
            if last.0 == e.0 {
                assert(has_key(s, e.0));
            }
        }
        assert forall|a: int, b: int| 0 <= a < b < r.len() implies (#[trigger] r[a]).0 != (
        #[trigger] r[b]).0 by {
            if b == mid.len() {
                assert(r[a] == mid[a]);
            } else {
                assert(r[a] == mid[a] && r[b] == mid[b]);
            }
        }
        assert forall|x: Seq<char>| has_key(r, x) <==> (x == e.0 || has_key(s, x)) by {
            if has_key(r, x) {
                let j = choose|j: int| 0 <= j < r.len() && (#[trigger] r[j]).0 == x;
                if j < mid.len() {
                    assert(mid[j].0 == x);
                    assert(has_key(mid, x));
                    if x != e.0 {
                        assert(has_key(head, x));
                        let i = choose|i: int| 0 <= i < head.len() && (#[trigger] head[i]).0 == x;
                        assert(head[i] == s[i]);
                        assert(s[i].0 == x);
                    }
                } else {
                    assert(s[s.len() - 1].0 == x);
                }
            }
            if has_key(s, x) {
                let j = choose|j: int| 0 <= j < s.len() && (#[trigger] s[j]).0 == x;
                if j < head.len() {
                    assert(head[j].0 == x);
                    assert(has_key(head, x));
                    assert(has_key(mid, x));
                    let i = choose|i: int| 0 <= i < mid.len() && (#[trigger] mid[i]).0 == x;
                    assert(r[i].0 == x);
                } else {
                    assert(r[mid.len() as int].0 == x);
                }
            }
            if x == e.0 {
                assert(has_key(mid, x));
                let i = choose|i: int| 0 <= i < mid.len() && (#[trigger] mid[i]).0 == x;
                assert(r[i].0 == x);
            }
        }
        assert forall|i: int| 0 <= i < r.len() implies holds(#[trigger] r[i]) by {
            if i < mid.len() {
                assert(r[i] == mid[i]);
            } else {
                assert(r[i] == s[s.len() - 1]);
            }
        }
    }
}

/// Sorting keeps the keys, keeps them distinct, and keeps of every entry what
/// `holds` says of it.
pub proof fn lemma_sorted_keeps<V>(s: Seq<(Seq<char>, V)>, holds: spec_fn((Seq<char>, V)) -> bool)
    requires
        distinct_keys(s),
        forall|i: int| 0 <= i < s.len() ==> holds(#[trigger] s[i]),
    ensures
        distinct_keys(sorted_by_key(s)),
        forall|x: Seq<char>| has_key(sorted_by_key(s), x) <==> has_key(s, x),
        forall|i: int| 0 <= i < sorted_by_key(s).len() ==> holds(#[trigger] sorted_by_key(s)[i]),
    decreases s.len(),
{
    if s.len() > 0 {
        let head = s.drop_last();
        let last = s.last();
        assert forall|a: int, b: int| 0 <= a < b < head.len() implies (#[trigger] head[a]).0 != (
        #[trigger] head[b]).0 by {
            assert(head[a] == s[a] && head[b] == s[b]);
        }
        assert forall|i: int| 0 <= i < head.len() implies holds(#[trigger] head[i]) by {
            assert(head[i] == s[i]);
        }
        lemma_sorted_keeps(head, holds);
        assert(!has_key(head, last.0)) by {
            if has_key(head, last.0) {
                let j = choose|j: int| 0 <= j < head.len() && (#[trigger] head[j]).0 == last.0;
                assert(s[j].0 == s[s.len() - 1].0);
            }
        }
        assert(holds(s[s.len() - 1]));
        lemma_insert_ordered_keeps(sorted_by_key(head), last, holds);
        assert forall|x: Seq<char>| has_key(sorted_by_key(s), x) <==> has_key(s, x) by {
            if has_key(s, x) {
                let j = choose|j: int| 0 <= j < s.len() && (#[trigger] s[j]).0 == x;
                if j < head.len() {
                    assert(head[j].0 == x);
                    assert(has_key(head, x));
                }
            }
            if has_key(head, x) {
                let j = choose|j: int| 0 <= j < head.len() && (#[trigger] head[j]).0 == x;
                assert(s[j].0 == x);
            }
            if x == last.0 {
                assert(s[s.len() - 1].0 == x);
            }
        }
    }
}

/// Where `e` goes among the ordered entries `s`, given the place `p` behind
/// the last entry whose key is at most its own.
pub proof fn lemma_insert_ordered_at<V>(s: Seq<(Seq<char>, V)>, e: (Seq<char>, V), p: int)
    requires
        0 <= p <= s.len(),
        p > 0 ==> text_le(s[p - 1].0, e.0),
        forall|i: int| p <= i < s.len() ==> !text_le((#[trigger] s[i]).0, e.0),
    ensures
        insert_ordered(s, e) == s.insert(p, e),
    decreases s.len() - p,
{
    if p == s.len() {
        assert(s.insert(p, e) =~= s.push(e));
    } else {
        assert(!text_le(s[s.len() - 1].0, e.0));
        let head = s.drop_last();
        assert forall|i: int| p <= i < head.len() implies !text_le((#[trigger] head[i]).0, e.0) by {
            assert(head[i] == s[i]);
        }
        if p > 0 {
            assert(head[p - 1] == s[p - 1]);
        }
        lemma_insert_ordered_at(head, e, p);
        assert(head.insert(p, e).push(s.last()) =~= s.insert(p, e));
    }
}

/// One flat entry: a dotted key and the raw text stored under it.
#[derive(Debug, Clone, PartialEq, Eq)]
pub struct FlatEntry {
    pub key: String,
    pub value: String,
}

impl View for FlatEntry {
    type V = (Seq<char>, Seq<char>);

    open spec fn view(&self) -> (Seq<char>, Seq<char>) {
        (self.key@, self.value@)
    }
}

/// Flat entries with distinct keys, in the order in which the keys first came.
#[derive(Debug, PartialEq, Eq)]
pub struct FlatMap {
    entries: Vec<FlatEntry>,
}

impl View for FlatMap {
    type V = Seq<(Seq<char>, Seq<char>)>;

    closed spec fn view(&self) -> Seq<(Seq<char>, Seq<char>)> {
        self.entries@.map_values(|e: FlatEntry| e@)
    }
}

impl FlatMap {
    #[verifier::type_invariant]
    spec fn keys_are_distinct(&self) -> bool {
        distinct_keys(self@)
    }

    /// A map without entries.
    pub fn new() -> (r: FlatMap)
        ensures
            r@ == Seq::<(Seq<char>, Seq<char>)>::empty(),
    {
        let r = FlatMap { entries: Vec::new() };
        assert(r@ =~= Seq::<(Seq<char>, Seq<char>)>::empty());
        r
    }

    /// The number of entries. No two of them have the same key.
    pub fn len(&self) -> (r: usize)
        ensures
            r == self@.len(),
            distinct_keys(self@),
    {
        proof {
            use_type_invariant(self);
        }
        self.entries.len()
    }

    /// Entry `i`, counted from zero in the order of the map.
    pub fn entry(&self, i: usize) -> (r: &FlatEntry)
        requires
            i < self@.len(),
        ensures
            r@ == self@[i as int],
    {
        &self.entries[i]
    }

    /// The text stored under `key`, if any.
    pub fn get(&self, key: &str) -> (r: Option<&String>)
        ensures
            match r {
                Some(text) => exists|i: int|
                    0 <= i < self@.len() && #[trigger] self@[i] == (key@, text@),
                None => !has_key(self@, key@),
            },
    {
        let mut i: usize = 0;
        while i < self.entries.len()
            invariant
                i <= self.entries.len(),
                forall|j: int| 0 <= j < i ==> (#[trigger] self@[j]).0 != key@,
            decreases self.entries.len() - i,
        {
            if same_str(self.entries[i].key.as_str(), key) {
                assert(self@[i as int] == (key@, self.entries[i as int].value@));
                return Some(&self.entries[i].value);
            }
            i += 1;
        }
        None
    }

    /// The entries in the order of their keys.
    pub fn sorted(&self) -> (r: Vec<FlatEntry>)
        ensures
            r@.map_values(|e: FlatEntry| e@) == sorted_by_key(self@),
    {
        let mut out: Vec<FlatEntry> = Vec::new();
        let mut i: usize = 0;
        assert(self@.take(0) =~= Seq::<(Seq<char>, Seq<char>)>::empty());
        assert(out@.map_values(|e: FlatEntry| e@) =~= Seq::<(Seq<char>, Seq<char>)>::empty());
        while i < self.entries.len()
            invariant
                i <= self.entries.len(),
                out@.map_values(|e: FlatEntry| e@) == sorted_by_key(self@.take(i as int)),
            decreases self.entries.len() - i,
        {
            let e = &self.entries[i];
            let key = chars_of(e.key.as_str());
            let ghost before = out@.map_values(|e: FlatEntry| e@);
            let mut p: usize = out.len();
            while p > 0 && !text_at_most(&chars_of(out[p - 1].key.as_str()), &key)
                invariant
                    p <= out.len(),
                    before == out@.map_values(|e: FlatEntry| e@),
                    key@ == e.key@,
                    forall|j: int| p <= j < before.len() ==> !text_le((#[trigger] before[j]).0, key@),
                decreases p,
            {
                p -= 1;
            }
            proof {
                assert(self@.take(i + 1).drop_last() =~= self@.take(i as int));
                assert(self@.take(i + 1).last() == e@);
                lemma_insert_ordered_at(before, e@, p as int);
            }
            out.insert(p, FlatEntry { key: e.key.clone(), value: e.value.clone() });
            assert(out@.map_values(|e: FlatEntry| e@) =~= before.insert(p as int, e@));
            i += 1;
        }
        assert(self@.take(self@.len() as int) == self@);
        out
    }

    /// Stores `value` under `key`. A key that is there keeps its place and
    /// takes the new value; a new key comes last.
    pub fn insert(&mut self, key: String, value: String)
        ensures
            final(self)@ == put(old(self)@, key@, value@),
            distinct_keys(final(self)@),
    {
        proof {
            use_type_invariant(&*self);
        }
        let mut taken = FlatMap::new();
        core::mem::swap(self, &mut taken);
        let FlatMap { entries } = taken;
        let mut entries = entries;
        let ghost before = entries@.map_values(|e: FlatEntry| e@);
        proof {
            lemma_put_keys(before, key@, value@);
        }
        let mut i: usize = 0;
        while i < entries.len()
            invariant
                i <= entries.len(),
                before == entries@.map_values(|e: FlatEntry| e@),
                before == old(self)@,
                distinct_keys(put(before, key@, value@)),
                forall|j: int| 0 <= j < i ==> (#[trigger] before[j]).0 != key@,
            decreases entries.len() - i,
        {
            if entries[i].key == key {
                proof {
                    lemma_put_present(before, i as int, value@);
                }
                entries[i].value = value;
                assert(entries@.map_values(|e: FlatEntry| e@) =~= before.update(
                    i as int,
                    (key@, value@),
                ));
                *self = FlatMap { entries };
                return;
            }
            i += 1;
        }
        proof {
            assert(!has_key(before, key@));
            lemma_put_absent(before, key@, value@);
        }
        entries.push(FlatEntry { key, value });
        assert(entries@.map_values(|e: FlatEntry| e@) =~= before.push((key@, value@)));
        *self = FlatMap { entries };
    }
}

impl Clone for FlatMap {
    fn clone(&self) -> (r: FlatMap)
        ensures
            r@ == self@,
    {
        proof {
            use_type_invariant(self);
        }
        let mut entries: Vec<FlatEntry> = Vec::new();
        let mut i: usize = 0;
        while i < self.entries.len()
            invariant
                i <= self.entries.len(),
                entries@.map_values(|e: FlatEntry| e@) == self@.take(i as int),
            decreases self.entries.len() - i,
        {
            let e = &self.entries[i];
            let ghost before = entries@.map_values(|e: FlatEntry| e@);
            entries.push(FlatEntry { key: e.key.clone(), value: e.value.clone() });
            assert(entries@.map_values(|e: FlatEntry| e@) =~= before.push(self@[i as int]));
            assert(self@.take(i + 1) =~= self@.take(i as int).push(self@[i as int]));
            i += 1;
        }
        assert(self@.take(self@.len() as int) == self@);
        FlatMap { entries }
    }
}

} // verus!
