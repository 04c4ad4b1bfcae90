//! Writing a tree as flat lines, reading the lines back into a tree, and
//! writing that tree again.

use crate::flat::{
    distinct_keys, lemma_put_absent, lemma_put_present, lemma_sorted_by_key, lemma_sorted_keeps,
    ordered_by_key, sorted_by_key,
};
use crate::flatten::{child_key, flattened, leaves, mapping_leaves, scalar_text};
use crate::infer::inferred;
use crate::properties::{parsed_properties, properties_text};
use crate::properties_laws::{all_writable, lemma_sorted_fixed, lemma_text_stable};
use crate::text::{split_on, text_le};
use crate::tree_laws::{
    comes_back, entries_come_back, flat_safe, graft, joined, lemma_entries_come_back,
    lemma_entries_prefix, lemma_leaves_under, lemma_mapping_leaves_under, lemma_not_under_both,
    lemma_split_first, lemma_stored_is_graft, lemma_value_at_index, lemma_value_at_none,
    named_mappings, stable, stable_entries, stable_text, starts_with_dot, stored_all, under,
};
use crate::unflatten::{child_entries, unflattened, value_at};
use crate::value::Tree;
use vstd::multiset::Multiset;
use vstd::prelude::*;
use vstd::seq_lib::lemma_multiset_commutative;

verus! {

/// The flat key of what lies at the end of `path` below a mapping with the
/// key `prefix`.
pub open spec fn flat_key(prefix: Seq<char>, path: Seq<Seq<char>>) -> Seq<char>
    decreases path.len(),
{
    if path.len() == 0 {
        prefix
    } else {
        flat_key(child_key(prefix, path[0]), path.drop_first())
    }
}

/// Whether nothing stands in the way of a new leaf at the end of `path`: the
/// keys on the way are not there yet or hold mappings, and the last is not
/// there.
pub open spec fn free_at(acc: Seq<(Seq<char>, Tree)>, path: Seq<Seq<char>>) -> bool
    decreases path.len(),
{
    path.len() >= 1 && match value_at(acc, path[0]) {
        None => true,
        Some(Tree::Mapping(m)) => path.len() > 1 && free_at(m, path.drop_first()),
        Some(_) => false,
    }
}

/// The flat entries of entries with one more entry behind them.
pub proof fn lemma_mapping_leaves_push(
    m: Seq<(Seq<char>, Tree)>,
    e: (Seq<char>, Tree),
    prefix: Seq<char>,
)
    ensures
        mapping_leaves(m.push(e), prefix) == mapping_leaves(m, prefix) + leaves(
            e.1,
            child_key(prefix, e.0),
        ),
{
    assert(m.push(e).drop_last() =~= m);
}

/// Where the value of one entry gains a flat entry, the entries gain it.
pub proof fn lemma_mapping_leaves_update(
    m: Seq<(Seq<char>, Tree)>,
    i: int,
    w: Tree,
    prefix: Seq<char>,
    gained: (Seq<char>, Seq<char>),
)
    requires
        0 <= i < m.len(),
        leaves(w, child_key(prefix, m[i].0)).to_multiset() == leaves(
            m[i].1,
            child_key(prefix, m[i].0),
        ).to_multiset().insert(gained),
    ensures
        mapping_leaves(m.update(i, (m[i].0, w)), prefix).to_multiset() == mapping_leaves(
            m,
            prefix,
        ).to_multiset().insert(gained),
    decreases m.len(),
{
    let after = m.update(i, (m[i].0, w));
    let head = m.drop_last();
    lemma_multiset_commutative(
        mapping_leaves(head, prefix),
        leaves(m.last().1, child_key(prefix, m.last().0)),
    );
    if i == m.len() - 1 {
        assert(after.drop_last() =~= head);
        assert(after.last() == (m[i].0, w));
        lemma_multiset_commutative(
            mapping_leaves(head, prefix),
            leaves(w, child_key(prefix, m[i].0)),
        );
        assert(mapping_leaves(after, prefix).to_multiset() =~= mapping_leaves(
            m,
            prefix,
        ).to_multiset().insert(gained));
    } else {
        assert(head[i] == m[i]);
        lemma_mapping_leaves_update(head, i, w, prefix, gained);
        assert(after.drop_last() =~= head.update(i, (m[i].0, w)));
        assert(after.last() == m.last());
        lemma_multiset_commutative(
            mapping_leaves(after.drop_last(), prefix),
            leaves(m.last().1, child_key(prefix, m.last().0)),
        );
        assert(mapping_leaves(after, prefix).to_multiset() =~= mapping_leaves(
            m,
            prefix,
        ).to_multiset().insert(gained));
    }
}

/// Putting a leaf at a free path adds one flat entry: the key of the path
/// with the text of the leaf.
pub proof fn lemma_graft_leaves(
    acc: Seq<(Seq<char>, Tree)>,
    path: Seq<Seq<char>>,
    x: Tree,
    prefix: Seq<char>,
)
    requires
        free_at(acc, path),
        scalar_text(x) is Some,
    ensures
        mapping_leaves(graft(acc, path, x), prefix).to_multiset() == mapping_leaves(
            acc,
            prefix,
        ).to_multiset().insert((flat_key(prefix, path), scalar_text(x).unwrap())),
    decreases path.len(),
{
    let c = path[0];
    let rest = path.drop_first();
    let q = child_key(prefix, c);
    let gained = (flat_key(prefix, path), scalar_text(x).unwrap());
    let nothing = Seq::<(Seq<char>, Tree)>::empty();
    assert(flat_key(prefix, path) == flat_key(q, rest));
    match value_at(acc, c) {
        None => {
            lemma_value_at_none(acc, c);
            let w = if path.len() == 1 {
                x
            } else {
                Tree::Mapping(graft(nothing, rest, x))
            };
            assert(child_entries(acc, c) == nothing);
            lemma_put_absent(acc, c, w);
            lemma_mapping_leaves_push(acc, (c, w), prefix);
            lemma_multiset_commutative(mapping_leaves(acc, prefix), leaves(w, q));
            let one = seq![gained];
            assert(one.to_multiset() =~= Multiset::<(Seq<char>, Seq<char>)>::empty().insert(
                gained,
            )) by {
                broadcast use vstd::seq_lib::group_to_multiset_ensures;

                assert(one =~= Seq::<(Seq<char>, Seq<char>)>::empty().push(gained));
                assert(Seq::<(Seq<char>, Seq<char>)>::empty().to_multiset() =~= Multiset::<
                    (Seq<char>, Seq<char>),
                >::empty());
            }
            if path.len() == 1 {
                assert(rest.len() == 0);
                assert(flat_key(q, rest) == q);
                assert(leaves(w, q) == one);
            } else {
                assert(value_at(nothing, rest[0]) is None);
                assert(free_at(nothing, rest));
                lemma_graft_leaves(nothing, rest, x, q);
                assert(mapping_leaves(nothing, q) =~= Seq::<(Seq<char>, Seq<char>)>::empty());
                assert(mapping_leaves(nothing, q).to_multiset() =~= Multiset::<
                    (Seq<char>, Seq<char>),
                >::empty()) by {
                    broadcast use vstd::seq_lib::group_to_multiset_ensures;

                }
                assert(leaves(w, q).to_multiset() =~= one.to_multiset());
            }
            assert(mapping_leaves(graft(acc, path, x), prefix).to_multiset() =~= mapping_leaves(
                acc,
                prefix,
            ).to_multiset().insert(gained));
        },
        Some(Tree::Mapping(m)) => {
            let i = lemma_value_at_index(acc, c);
            lemma_graft_leaves(m, rest, x, q);
            let w = Tree::Mapping(graft(m, rest, x));
            assert(child_entries(acc, c) == m);
            lemma_put_present(acc, i, w);
            lemma_mapping_leaves_update(acc, i, w, prefix, gained);
        },
        Some(_) => {},
    }
}

/// Whether a tree is made of leaves and of mappings that are not empty.
pub open spec fn solid(t: Tree) -> bool
    decreases t,
{
    match t {
        Tree::Mapping(m) => m.len() > 0 && solid_entries(m),
        Tree::Sequence(_) => false,
        Tree::Tagged => false,
        _ => true,
    }
}

/// Whether the value of every entry is solid.
pub open spec fn solid_entries(m: Seq<(Seq<char>, Tree)>) -> bool
    decreases m,
{
    m.len() == 0 || (solid_entries(m.drop_last()) && solid(m.last().1))
}

/// The values of solid entries are solid, each of them.
pub proof fn lemma_solid_each(m: Seq<(Seq<char>, Tree)>)
    ensures
        solid_entries(m) <==> forall|i: int| 0 <= i < m.len() ==> solid((#[trigger] m[i]).1),
    decreases m.len(),
{
    if m.len() > 0 {
        let head = m.drop_last();
        lemma_solid_each(head);
        if solid_entries(m) {
            assert forall|i: int| 0 <= i < m.len() implies solid((#[trigger] m[i]).1) by {
                if i < head.len() {
                    assert(head[i] == m[i]);
                }
            }
        }
        if forall|i: int| 0 <= i < m.len() ==> solid((#[trigger] m[i]).1) {
            assert forall|i: int| 0 <= i < head.len() implies solid((#[trigger] head[i]).1) by {
                assert(head[i] == m[i]);
            }
            assert(solid(m[m.len() - 1].1));
        }
    }
}

/// Whether one of two dotted keys is the other or lies below it.
pub open spec fn comparable(a: Seq<char>, b: Seq<char>) -> bool {
    under(a, b) || under(b, a)
}

/// The flat entries of entry `i` of a mapping are among the flat entries of
/// the mapping.
pub proof fn lemma_leaves_member(m: Seq<(Seq<char>, Tree)>, prefix: Seq<char>, i: int, j: int) -> (n:
    int)
    requires
        0 <= i < m.len(),
        0 <= j < leaves(m[i].1, child_key(prefix, m[i].0)).len(),
    ensures
        0 <= n < mapping_leaves(m, prefix).len(),
        mapping_leaves(m, prefix)[n] == leaves(m[i].1, child_key(prefix, m[i].0))[j],
    decreases m.len(),
{
    let head = m.drop_last();
    let first = mapping_leaves(head, prefix);
    if i == m.len() - 1 {
        first.len() + j
    } else {
        assert(head[i] == m[i]);
        lemma_leaves_member(head, prefix, i, j)
    }
}

/// A solid tree has a flat entry, and the key of each of its flat entries
/// lies at or below the key of the tree.
pub proof fn lemma_solid_leaves(w: Tree, q: Seq<char>)
    requires
        solid(w),
        w is Mapping ==> q.len() > 0,
    ensures
        leaves(w, q).len() > 0,
        forall|i: int| 0 <= i < leaves(w, q).len() ==> under((#[trigger] leaves(w, q)[i]).0, q),
    decreases w, 1nat,
{
    match w {
        Tree::Mapping(m) => {
            lemma_solid_mapping_leaves(m, q);
            assert forall|i: int| 0 <= i < leaves(w, q).len() implies under(
                (#[trigger] leaves(w, q)[i]).0,
                q,
            ) by {
                let c = choose|c: Seq<char>| under(mapping_leaves(m, q)[i].0, child_key(q, c));
                crate::tree_laws::lemma_under_parent(mapping_leaves(m, q)[i].0, q, c);
            }
        },
        Tree::Sequence(_) => {},
        Tree::Tagged => {},
        _ => {
            assert(leaves(w, q)[0].0 == q);
            assert(q.take(q.len() as int) =~= q);
        },
    }
}

/// Solid entries that are not empty have a flat entry, and the key of each of
/// their flat entries lies at or below the key of one of them.
pub proof fn lemma_solid_mapping_leaves(m: Seq<(Seq<char>, Tree)>, q: Seq<char>)
    requires
        solid_entries(m),
        q.len() > 0,
    ensures
        m.len() > 0 ==> mapping_leaves(m, q).len() > 0,
        forall|i: int|
            0 <= i < mapping_leaves(m, q).len() ==> exists|c: Seq<char>|
                under((#[trigger] mapping_leaves(m, q)[i]).0, child_key(q, c)),
    decreases m, 0nat,
{
    if m.len() > 0 {
        let head = m.drop_last();
        let first = mapping_leaves(head, q);
        let c = m.last().0;
        let last = leaves(m.last().1, child_key(q, c));
        lemma_solid_mapping_leaves(head, q);
        lemma_solid_leaves(m.last().1, child_key(q, c));
        assert forall|i: int| 0 <= i < mapping_leaves(m, q).len() implies exists|c: Seq<char>|
            under((#[trigger] mapping_leaves(m, q)[i]).0, child_key(q, c)) by {
            if i < first.len() {
                assert(mapping_leaves(m, q)[i] == first[i]);
                let d = choose|d: Seq<char>| under(first[i].0, child_key(q, d));
                assert(under(mapping_leaves(m, q)[i].0, child_key(q, d)));
            } else {
                assert(mapping_leaves(m, q)[i] == last[i - first.len()]);
                assert(under(mapping_leaves(m, q)[i].0, child_key(q, c)));
            }
        }
    }
}

/// The flat key of a path below a key that is not empty lies at or below that
/// key.
pub proof fn lemma_flat_key_under(q: Seq<char>, rest: Seq<Seq<char>>)
    requires
        q.len() > 0,
    ensures
        under(flat_key(q, rest), q),
        flat_key(q, rest).len() > 0,
    decreases rest.len(),
{
    if rest.len() == 0 {
        assert(q.take(q.len() as int) =~= q);
    } else {
        let longer = child_key(q, rest[0]);
        lemma_flat_key_under(longer, rest.drop_first());
        crate::tree_laws::lemma_under_parent(flat_key(q, rest), q, rest[0]);
    }
}

/// Where a path is not free, a flat entry has a key that is the key of the
/// path, or lies below it, or above it.
pub proof fn lemma_not_free(acc: Seq<(Seq<char>, Tree)>, path: Seq<Seq<char>>, prefix: Seq<char>) -> (n:
    int)
    requires
        solid_entries(acc),
        path.len() >= 1,
        !free_at(acc, path),
        prefix.len() > 0 || ((path[0].len() > 0 || path.len() == 1) && named_mappings(acc)),
    ensures
        0 <= n < mapping_leaves(acc, prefix).len(),
        comparable(mapping_leaves(acc, prefix)[n].0, flat_key(prefix, path)),
    decreases path.len(),
{
    let c = path[0];
    let rest = path.drop_first();
    let q = child_key(prefix, c);
    let i = lemma_value_at_index(acc, c);
    lemma_solid_each(acc);
    let t = acc[i].1;
    assert(solid(t));
    assert(flat_key(prefix, path) == flat_key(q, rest));
    match t {
        Tree::Mapping(m) => {
            assert(q.len() > 0);
            if path.len() > 1 {
                assert(!free_at(m, rest));
                let j = lemma_not_free(m, rest, q);
                lemma_leaves_member(acc, prefix, i, j)
            } else {
                assert(rest.len() == 0);
                assert(flat_key(q, rest) == q);
                lemma_solid_leaves(t, q);
                lemma_leaves_member(acc, prefix, i, 0)
            }
        },
        Tree::Sequence(_) => 0,
        Tree::Tagged => 0,
        _ => {
            assert(leaves(t, q)[0].0 == q);
            let n = lemma_leaves_member(acc, prefix, i, 0);
            if rest.len() == 0 {
                assert(flat_key(q, rest) == q);
                assert(q.take(q.len() as int) =~= q);
            } else {
                lemma_flat_key_under(q, rest);
            }
            n
        },
    }
}

/// Putting a leaf at a free path keeps the entries solid, and keeps mappings
/// away from the empty key where the path does not start with it.
pub proof fn lemma_graft_solid(acc: Seq<(Seq<char>, Tree)>, path: Seq<Seq<char>>, x: Tree)
    requires
        solid_entries(acc),
        free_at(acc, path),
        scalar_text(x) is Some,
    ensures
        solid_entries(graft(acc, path, x)),
        graft(acc, path, x).len() > 0,
        named_mappings(acc) && (path[0].len() > 0 || path.len() == 1) ==> named_mappings(
            graft(acc, path, x),
        ),
    decreases path.len(),
{
    let c = path[0];
    let rest = path.drop_first();
    let nothing = Seq::<(Seq<char>, Tree)>::empty();
    let r = graft(acc, path, x);
    lemma_solid_each(acc);
    match value_at(acc, c) {
        None => {
            lemma_value_at_none(acc, c);
            let w = if path.len() == 1 {
                x
            } else {
                Tree::Mapping(graft(nothing, rest, x))
            };
            assert(child_entries(acc, c) == nothing);
            lemma_put_absent(acc, c, w);
            if path.len() > 1 {
                assert(value_at(nothing, rest[0]) is None);
                lemma_graft_solid(nothing, rest, x);
            }
            assert(solid(w));
            assert forall|i: int| 0 <= i < r.len() implies solid((#[trigger] r[i]).1) by {
                if i < acc.len() {
                    assert(r[i] == acc[i]);
                }
            }
            lemma_solid_each(r);
            if named_mappings(acc) && (path[0].len() > 0 || path.len() == 1) {
                assert forall|i: int| 0 <= i < r.len() && (#[trigger] r[i]).0.len() == 0 implies !(
                r[i].1 is Mapping) by {
                    if i < acc.len() {
                        assert(r[i] == acc[i]);
                    }
                }
            }
        },
        Some(Tree::Mapping(m)) => {
            let i = lemma_value_at_index(acc, c);
            assert(solid(acc[i].1));
            lemma_graft_solid(m, rest, x);
            let w = Tree::Mapping(graft(m, rest, x));
            assert(child_entries(acc, c) == m);
            lemma_put_present(acc, i, w);
            assert forall|j: int| 0 <= j < r.len() implies solid((#[trigger] r[j]).1) by {
                if j != i {
                    assert(r[j] == acc[j]);
                }
            }
            lemma_solid_each(r);
            if named_mappings(acc) && (path[0].len() > 0 || path.len() == 1) {
                assert forall|j: int| 0 <= j < r.len() && (#[trigger] r[j]).0.len() == 0 implies !(
                r[j].1 is Mapping) by {
                    if j != i {
                        assert(r[j] == acc[j]);
                    }
                }
            }
        },
        Some(_) => {},
    }
}

/// The flat key of a path with one more key at its end.
pub proof fn lemma_flat_key_push(prefix: Seq<char>, path: Seq<Seq<char>>, c: Seq<char>)
    ensures
        flat_key(prefix, path.push(c)) == child_key(flat_key(prefix, path), c),
    decreases path.len(),
{
    let longer = path.push(c);
    if path.len() == 0 {
        assert(longer.drop_first() =~= Seq::<Seq<char>>::empty());
        assert(longer[0] == c);
        assert(flat_key(child_key(prefix, c), longer.drop_first()) == child_key(prefix, c));
    } else {
        assert(longer.drop_first() =~= path.drop_first().push(c));
        assert(longer[0] == path[0]);
        lemma_flat_key_push(child_key(prefix, path[0]), path.drop_first(), c);
    }
}

/// The dotted key of a path starts with the first key of the path.
pub proof fn lemma_joined_len(path: Seq<Seq<char>>)
    requires
        path.len() >= 1,
    ensures
        joined(path).len() >= path[0].len(),
    decreases path.len(),
{
    if path.len() > 1 {
        assert(path.drop_last()[0] == path[0]);
        lemma_joined_len(path.drop_last());
    }
}

/// The flat key of a path from the root is its dotted key, where the path is
/// one key or starts with a key that is not empty.
pub proof fn lemma_flat_key_joined(path: Seq<Seq<char>>)
    requires
        path.len() >= 1,
        path[0].len() > 0 || path.len() == 1,
    ensures
        flat_key(Seq::empty(), path) == joined(path),
    decreases path.len(),
{
    let root = Seq::<char>::empty();
    if path.len() == 1 {
        assert(path.drop_first().len() == 0);
        assert(flat_key(child_key(root, path[0]), path.drop_first()) == child_key(root, path[0]));
    } else {
        let head = path.drop_last();
        assert(head[0] == path[0]);
        lemma_flat_key_joined(head);
        lemma_joined_len(head);
        assert(head.push(path.last()) =~= path);
        lemma_flat_key_push(root, head, path.last());
    }
}

/// Joining the pieces of a dotted key gives the key back.
pub proof fn lemma_joined_split(k: Seq<char>)
    ensures
        joined(split_on(k, '.')) == k,
        split_on(k, '.').len() >= 1,
    decreases k.len(),
{
    crate::text::lemma_split_on_len(k, '.');
    if k.len() == 0 {
        assert(split_on(k, '.') =~= seq![Seq::<char>::empty()]);
        assert(joined(split_on(k, '.')) =~= k);
    } else {
        let h = k.drop_last();
        let c = k.last();
        let pieces = split_on(h, '.');
        lemma_joined_split(h);
        if c == '.' {
            let all = pieces.push(Seq::<char>::empty());
            assert(all.drop_last() =~= pieces);
            assert(joined(all) =~= h + seq!['.']);
            assert(h + seq!['.'] =~= k);
        } else {
            let all = pieces.drop_last().push(pieces.last().push(c));
            if pieces.len() == 1 {
                assert(all =~= seq![pieces[0].push(c)]);
                assert(joined(pieces) == pieces[0]);
                assert(pieces[0].push(c) =~= k);
            } else {
                assert(all.drop_last() =~= pieces.drop_last());
                assert(joined(all) =~= (joined(pieces.drop_last()) + seq!['.']
                    + pieces.last()).push(c));
                assert(h.push(c) =~= k);
            }
        }
    }
}

/// Whether no key of the entries lies below another key of the entries.
pub open spec fn apart(es: Seq<(Seq<char>, Seq<char>)>) -> bool {
    forall|i: int, j: int|
        0 <= i < es.len() && 0 <= j < es.len() && (#[trigger] es[i]).0 != (#[trigger] es[j]).0
            ==> !under(es[i].0, es[j].0)
}

/// Whether an entry comes back from a tree: its key does not start with a
/// `.`, and its text is the text of the value that it stands for.
pub open spec fn settled(e: (Seq<char>, Seq<char>)) -> bool {
    !starts_with_dot(e.0) && scalar_text(inferred(e.1)) == Some(e.1)
}

/// Whether every entry is settled.
pub open spec fn all_settled(es: Seq<(Seq<char>, Seq<char>)>) -> bool {
    forall|i: int| 0 <= i < es.len() ==> settled(#[trigger] es[i])
}

/// The flat entries of the tree that settled entries with distinct keys, none
/// below another, are unflattened to are those entries, in some order.
pub proof fn lemma_leaves_of_stored(es: Seq<(Seq<char>, Seq<char>)>)
    requires
        distinct_keys(es),
        apart(es),
        all_settled(es),
    ensures
        solid_entries(stored_all(Seq::empty(), es)),
        named_mappings(stored_all(Seq::empty(), es)),
        mapping_leaves(stored_all(Seq::empty(), es), Seq::empty()).to_multiset()
            == es.to_multiset(),
    decreases es.len(),
{
    broadcast use vstd::seq_lib::group_to_multiset_ensures;

    let nothing = Seq::<(Seq<char>, Tree)>::empty();
    let root = Seq::<char>::empty();
    if es.len() == 0 {
        assert(mapping_leaves(nothing, root) =~= es);
    } else {
        let head = es.drop_last();
        let e = es.last();
        let path = split_on(e.0, '.');
        assert forall|i: int, j: int| 0 <= i < j < head.len() implies (#[trigger] head[i]).0 != (
        #[trigger] head[j]).0 by {
            assert(head[i] == es[i] && head[j] == es[j]);
        }
        assert forall|i: int, j: int|
            0 <= i < head.len() && 0 <= j < head.len() && (#[trigger] head[i]).0 != (
            #[trigger] head[j]).0 implies !under(head[i].0, head[j].0) by {
            assert(head[i] == es[i] && head[j] == es[j]);
        }
        assert forall|i: int| 0 <= i < head.len() implies settled(#[trigger] head[i]) by {
            assert(head[i] == es[i]);
        }
        lemma_leaves_of_stored(head);
        let acc = stored_all(nothing, head);
        let flat = mapping_leaves(acc, root);
        assert(settled(es[es.len() - 1]));
        lemma_split_first(e.0);
        lemma_joined_split(e.0);
        lemma_flat_key_joined(path);
        assert(flat_key(root, path) == e.0);
        if !free_at(acc, path) {
            let n = lemma_not_free(acc, path, root);
            assert(flat.to_multiset().count(flat[n]) > 0) by {
                assert(flat.contains(flat[n]));
            }
            assert(head.contains(flat[n]));
            let j = choose|j: int| 0 <= j < head.len() && head[j] == flat[n];
            assert(head[j] == es[j]);
            assert(es[j].0 != es[es.len() - 1].0);
            assert(!under(es[j].0, es[es.len() - 1].0));
            assert(!under(es[es.len() - 1].0, es[j].0));
        }
        let x = inferred(e.1);
        lemma_stored_is_graft(acc, path, e.1);
        lemma_graft_leaves(acc, path, x, root);
        lemma_graft_solid(acc, path, x);
        assert(head.push(e) =~= es);
    }
}

/// Entries that are, in some order, entries with distinct keys have distinct
/// keys too.
pub proof fn lemma_same_entries_distinct<V>(a: Seq<(Seq<char>, V)>, b: Seq<(Seq<char>, V)>)
    requires
        a.to_multiset() == b.to_multiset(),
        distinct_keys(b),
    ensures
        distinct_keys(a),
{
    broadcast use vstd::seq_lib::group_to_multiset_ensures;

    assert(b.no_duplicates()) by {
        assert forall|i: int, j: int| 0 <= i < b.len() && 0 <= j < b.len() && i != j implies b[i]
            != b[j] by {
            if i < j {
                assert(b[i].0 != b[j].0);
            } else {
                assert(b[j].0 != b[i].0);
            }
        }
    }
    b.lemma_multiset_has_no_duplicates();
    a.lemma_multiset_has_no_duplicates_conv();
    assert forall|i: int, j: int| 0 <= i < j < a.len() implies (#[trigger] a[i]).0 != (
    #[trigger] a[j]).0 by {
        assert(a[i] != a[j]);
        assert(a.contains(a[i]) && a.contains(a[j]));
        assert(a.to_multiset().count(a[i]) > 0 && a.to_multiset().count(a[j]) > 0);
        assert(b.contains(a[i]) && b.contains(a[j]));
        let p = choose|p: int| 0 <= p < b.len() && b[p] == a[i];
        let q = choose|q: int| 0 <= q < b.len() && b[q] == a[j];
        if p < q {
            assert(b[p].0 != b[q].0);
        } else if q < p {
            assert(b[q].0 != b[p].0);
        }
    }
}

/// Two runs of the same entries, both in the order of their keys, which are
/// distinct, are the same run.
pub proof fn lemma_ordered_unique<V>(x: Seq<(Seq<char>, V)>, y: Seq<(Seq<char>, V)>)
    requires
        x.to_multiset() == y.to_multiset(),
        distinct_keys(x),
        ordered_by_key(x),
        ordered_by_key(y),
    ensures
        x == y,
    decreases x.len(),
{
    broadcast use vstd::seq_lib::group_to_multiset_ensures;

    assert(x.to_multiset().len() == x.len());
    assert(y.to_multiset().len() == y.len());
    if x.len() == 0 {
        assert(x =~= y);
    } else {
        let n = x.len() - 1;
        let lx = x[n];
        let ly = y[n];
        assert(y.contains(ly));
        assert(y.to_multiset().count(ly) > 0);
        assert(x.contains(ly));
        let p = choose|p: int| 0 <= p < x.len() && x[p] == ly;
        assert(x.contains(lx));
        assert(x.to_multiset().count(lx) > 0);
        assert(y.contains(lx));
        let q = choose|q: int| 0 <= q < y.len() && y[q] == lx;
        crate::text::lemma_text_le_reflexive(lx.0);
        if p < n {
            assert(text_le(x[p].0, x[n].0));
        }
        if q < n {
            assert(text_le(y[q].0, y[n].0));
        }
        crate::text::lemma_text_le_antisymmetric(lx.0, ly.0);
        if p < n {
            assert(x[p].0 != x[n].0);
        }
        assert(lx == ly);
        let hx = x.drop_last();
        let hy = y.drop_last();
        assert(hx =~= x.remove(n));
        assert(hy =~= y.remove(n));
        assert(hx.to_multiset() == hy.to_multiset());
        assert forall|i: int, j: int| 0 <= i < j < hx.len() implies (#[trigger] hx[i]).0 != (
        #[trigger] hx[j]).0 && text_le(hx[i].0, hx[j].0) by {
            assert(hx[i] == x[i] && hx[j] == x[j]);
        }
        assert forall|i: int, j: int| 0 <= i < j < hy.len() implies text_le(
            (#[trigger] hy[i]).0,
            (#[trigger] hy[j]).0,
        ) by {
            assert(hy[i] == y[i] && hy[j] == y[j]);
        }
        lemma_ordered_unique(hx, hy);
        assert(x =~= hx.push(lx));
        assert(y =~= hy.push(ly));
    }
}

/// Unflattening settled entries with distinct keys, none below another, and
/// flattening the tree gives the entries back, in some order: in the order of
/// their keys they are the same.
pub proof fn lemma_flatten_unflatten(es: Seq<(Seq<char>, Seq<char>)>)
    requires
        distinct_keys(es),
        apart(es),
        all_settled(es),
    ensures
        flattened(unflattened(es)).to_multiset() == es.to_multiset(),
        sorted_by_key(flattened(unflattened(es))) == sorted_by_key(es),
{
    let root = Seq::<char>::empty();
    let acc = stored_all(Seq::empty(), es);
    let flat = mapping_leaves(acc, root);
    lemma_leaves_of_stored(es);
    crate::tree_laws::lemma_unflattened_is_stored_all(es);
    lemma_same_entries_distinct(flat, es);
    crate::tree_laws::lemma_put_all_distinct_entries(flat);
    assert(flattened(unflattened(es)) == flat);
    lemma_sorted_by_key(flat);
    lemma_sorted_by_key(es);
    lemma_sorted_keeps(es, |e: (Seq<char>, Seq<char>)| true);
    lemma_ordered_unique(sorted_by_key(es), sorted_by_key(flat));
}

/// Whether the tree, written as flat lines, comes back from them: every flat
/// entry can be written as a line and read back, stands for a value with the
/// same text, has a key that does not start with a `.`, and no key lies below
/// another.
pub open spec fn survives_text(t: Tree) -> bool {
    &&& all_writable(flattened(t))
    &&& all_settled(flattened(t))
    &&& apart(flattened(t))
}

/// The flat lines of a tree.
pub open spec fn tree_text(t: Tree) -> Seq<char> {
    properties_text(flattened(t))
}

/// The tree that flat lines hold.
pub open spec fn text_tree(text: Seq<char>) -> Tree {
    unflattened(parsed_properties(text))
}

/// Writing a tree as flat lines, reading the lines back into a tree and
/// writing that tree gives the very same lines.
pub proof fn lemma_tree_text_stable(t: Tree)
    requires
        survives_text(t),
    ensures
        tree_text(text_tree(tree_text(t))) == tree_text(t),
{
    let es = flattened(t);
    let sorted = sorted_by_key(es);
    crate::flat::lemma_put_all_distinct(Seq::empty(), leaves(t, Seq::empty()));
    lemma_text_stable(es);
    lemma_sorted_by_key(es);
    lemma_sorted_keeps(es, |e: (Seq<char>, Seq<char>)| settled(e));
    lemma_sorted_members(es);
    assert forall|i: int, j: int|
        0 <= i < sorted.len() && 0 <= j < sorted.len() && (#[trigger] sorted[i]).0 != (
        #[trigger] sorted[j]).0 implies !under(sorted[i].0, sorted[j].0) by {
        let p = choose|p: int| 0 <= p < es.len() && es[p] == sorted[i];
        let q = choose|q: int| 0 <= q < es.len() && es[q] == sorted[j];
        assert(!under(es[p].0, es[q].0));
    }
    lemma_flatten_unflatten(sorted);
    lemma_sorted_fixed(sorted);
}

/// Every entry of the sorted entries is one of the entries.
pub proof fn lemma_sorted_members<V>(s: Seq<(Seq<char>, V)>)
    ensures
        forall|i: int|
            0 <= i < sorted_by_key(s).len() ==> exists|p: int|
                0 <= p < s.len() && s[p] == #[trigger] sorted_by_key(s)[i],
{
    broadcast use vstd::seq_lib::group_to_multiset_ensures;

    lemma_sorted_by_key(s);
    let sorted = sorted_by_key(s);
    assert forall|i: int| 0 <= i < sorted.len() implies exists|p: int|
        0 <= p < s.len() && s[p] == #[trigger] sorted[i] by {
        assert(sorted.contains(sorted[i]));
        assert(sorted.to_multiset().count(sorted[i]) > 0);
        assert(s.contains(sorted[i]));
    }
}

/// A key that lies at or below a key that lies at or below a third lies at or
/// below the third.
pub proof fn lemma_under_transitive(x: Seq<char>, y: Seq<char>, z: Seq<char>)
    requires
        under(x, y),
        under(y, z),
    ensures
        under(x, z),
{
    assert(x.take(z.len() as int) =~= z) by {
        assert forall|i: int| 0 <= i < z.len() implies x[i] == z[i] by {
            assert(x.take(y.len() as int)[i] == y[i]);
            assert(y.take(z.len() as int)[i] == z[i]);
        }
    }
    if y.len() > z.len() {
        assert(x.take(y.len() as int)[z.len() as int] == y[z.len() as int]);
    }
}

/// The flat entries of a tree that comes back, with stable texts, have stable
/// texts, and none of their keys lies below another.
pub proof fn lemma_leaves_apart(w: Tree, q: Seq<char>)
    requires
        comes_back(w),
        stable(w),
        w is Mapping ==> q.len() > 0,
    ensures
        apart(leaves(w, q)),
        forall|i: int|
            0 <= i < leaves(w, q).len() ==> stable_text((#[trigger] leaves(w, q)[i]).1),
    decreases w, 1nat,
{
    match w {
        Tree::Mapping(m) => {
            lemma_mapping_leaves_apart(m, q);
        },
        _ => {},
    }
}

/// The flat entries of the entries of a mapping that comes back, with stable
/// texts, have stable texts, and none of their keys lies below another.
pub proof fn lemma_mapping_leaves_apart(m: Seq<(Seq<char>, Tree)>, q: Seq<char>)
    requires
        distinct_keys(m),
        entries_come_back(m),
        stable_entries(m),
        forall|k: int|
            0 <= k < m.len() && (#[trigger] m[k]).1 is Mapping ==> child_key(q, m[k].0).len() > 0,
    ensures
        apart(mapping_leaves(m, q)),
        forall|i: int|
            0 <= i < mapping_leaves(m, q).len() ==> stable_text(
                (#[trigger] mapping_leaves(m, q)[i]).1,
            ),
    decreases m, 0nat,
{
    if m.len() > 0 {
        let head = m.drop_last();
        let first = mapping_leaves(head, q);
        let c = m.last().0;
        let last = leaves(m.last().1, child_key(q, c));
        let all = mapping_leaves(m, q);
        lemma_entries_prefix(m);
        lemma_entries_come_back(m);
        assert(comes_back(m[m.len() - 1].1) && !m[m.len() - 1].0.contains('.'));
        assert forall|k: int| 0 <= k < head.len() && (#[trigger] head[k]).1 is Mapping implies child_key(
            q,
            head[k].0,
        ).len() > 0 by {
            assert(head[k] == m[k]);
        }
        lemma_mapping_leaves_apart(head, q);
        lemma_leaves_apart(m.last().1, child_key(q, c));
        assert forall|i: int| 0 <= i < all.len() implies stable_text((#[trigger] all[i]).1) by {
            if i < first.len() {
                assert(all[i] == first[i]);
            } else {
                assert(all[i] == last[i - first.len()]);
            }
        }
        assert forall|a: int, b: int|
            0 <= a < all.len() && 0 <= b < all.len() && (#[trigger] all[a]).0 != (
            #[trigger] all[b]).0 implies !under(all[a].0, all[b].0) by {
            if a < first.len() && b < first.len() {
                assert(all[a] == first[a] && all[b] == first[b]);
            } else if a >= first.len() && b >= first.len() {
                assert(all[a] == last[a - first.len()] && all[b] == last[b - first.len()]);
            } else if under(all[a].0, all[b].0) {
                let in_first = if a < first.len() {
                    a
                } else {
                    b
                };
                let in_last = if a < first.len() {
                    b
                } else {
                    a
                };
                assert(all[in_first] == first[in_first]);
                assert(all[in_last] == last[in_last - first.len()]);
                let j = lemma_mapping_leaves_under(head, q, in_first);
                lemma_leaves_under(m.last().1, child_key(q, c), in_last - first.len());
                assert(head[j] == m[j]);
                assert(m[j].0 != m[m.len() - 1].0);
                if a < first.len() {
                    lemma_under_transitive(all[a].0, all[b].0, child_key(q, c));
                    lemma_not_under_both(all[a].0, q, m[j].0, c);
                } else {
                    lemma_under_transitive(all[a].0, all[b].0, child_key(q, m[j].0));
                    lemma_not_under_both(all[a].0, q, c, m[j].0);
                }
            }
        }
    }
}

/// The flat entries of a tree that comes back from its flat entries, with
/// stable texts, are settled, and none of their keys lies below another.
pub proof fn lemma_flat_safe_settled(t: Tree)
    requires
        flat_safe(t),
        stable(t),
    ensures
        all_settled(flattened(t)),
        apart(flattened(t)),
{
    let m = t->Mapping_0;
    let root = Seq::<char>::empty();
    let flat = leaves(t, root);
    assert forall|k: int| 0 <= k < m.len() && (#[trigger] m[k]).1 is Mapping implies child_key(
        root,
        m[k].0,
    ).len() > 0 by {
        assert(child_key(root, m[k].0) == m[k].0);
    }
    crate::tree_laws::lemma_mapping_leaves_distinct(m, root);
    crate::tree_laws::lemma_put_all_distinct_entries(flat);
    lemma_mapping_leaves_apart(m, root);
    lemma_entries_come_back(m);
    assert forall|i: int| 0 <= i < flat.len() implies settled(#[trigger] flat[i]) by {
        let j = lemma_mapping_leaves_under(m, root, i);
        let c = m[j].0;
        assert(child_key(root, c) == c);
        if starts_with_dot(flat[i].0) {
            if c.len() > 0 {
                assert(flat[i].0.take(c.len() as int)[0] == c[0]);
                assert(c.contains(c[0]));
            } else {
                assert(!(m[j].1 is Mapping));
                let k = lemma_leaf_entry_key(m, root, i);
                assert(m[k].0 == flat[i].0 || m[k].1 is Mapping);
                if m[k].1 is Mapping {
                    let d = m[k].0;
                    assert(child_key(root, d) == d);
                    assert(flat[i].0.take(d.len() as int)[0] == d[0]);
                    assert(d.contains(d[0]));
                } else {
                    assert(m[k].0.contains(m[k].0[0]));
                }
            }
        }
    }
}

/// The flat entry `i` of the entries of a mapping belongs to one of the
/// entries: its key is the key of that entry, where the entry holds a leaf,
/// or lies below it.
pub proof fn lemma_leaf_entry_key(m: Seq<(Seq<char>, Tree)>, q: Seq<char>, i: int) -> (k: int)
    requires
        entries_come_back(m),
        forall|k: int|
            0 <= k < m.len() && (#[trigger] m[k]).1 is Mapping ==> child_key(q, m[k].0).len() > 0,
        0 <= i < mapping_leaves(m, q).len(),
    ensures
        0 <= k < m.len(),
        under(mapping_leaves(m, q)[i].0, child_key(q, m[k].0)),
        m[k].1 is Mapping || mapping_leaves(m, q)[i].0 == child_key(q, m[k].0),
    decreases m.len(),
{
    let head = m.drop_last();
    let first = mapping_leaves(head, q);
    let w = m.last().1;
    let last = leaves(w, child_key(q, m.last().0));
    lemma_entries_come_back(m);
    assert(comes_back(m[m.len() - 1].1));
    if i < first.len() {
        assert forall|k: int| 0 <= k < head.len() && (#[trigger] head[k]).1 is Mapping implies child_key(
            q,
            head[k].0,
        ).len() > 0 by {
            assert(head[k] == m[k]);
        }
        let k = lemma_leaf_entry_key(head, q, i);
        assert(head[k] == m[k]);
        assert(mapping_leaves(m, q)[i] == first[i]);
        k
    } else {
        assert(mapping_leaves(m, q)[i] == last[i - first.len()]);
        lemma_leaves_under(w, child_key(q, m.last().0), i - first.len());
        m.len() - 1
    }
}

/// A tree that comes back from its flat entries, with stable texts, whose
/// flat entries can each be written as a line and read back, is written as
/// the same flat lines again after the lines are read back into a tree.
pub proof fn lemma_flat_safe_text_stable(t: Tree)
    requires
        flat_safe(t),
        stable(t),
        all_writable(flattened(t)),
    ensures
        tree_text(text_tree(tree_text(t))) == tree_text(t),
{
    lemma_flat_safe_settled(t);
    lemma_tree_text_stable(t);
}

} // verus!
