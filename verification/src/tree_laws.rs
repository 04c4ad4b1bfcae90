//! Flattening a tree and unflattening the result.

use crate::flat::{distinct_keys, has_key, lemma_put_absent, put, put_all};
use crate::flatten::{child_key, flattened, leaves, mapping_leaves, scalar_text};
use crate::infer::inferred;
use crate::properties_laws::{lemma_split_append, lemma_split_one};
use crate::text::split_on;
use crate::unflatten::{
    child_entries, stored, unflattened, unflattened_entries, value_at,
};
use crate::value::Tree;
use vstd::prelude::*;

verus! {

/// The entries `acc` after each flat entry of `es` is stored in turn.
pub open spec fn stored_all(acc: Seq<(Seq<char>, Tree)>, es: Seq<(Seq<char>, Seq<char>)>) -> Seq<
    (Seq<char>, Tree),
>
    decreases es.len(),
{
    if es.len() == 0 {
        acc
    } else {
        stored(stored_all(acc, es.drop_last()), split_on(es.last().0, '.'), es.last().1)
    }
}

/// Unflattening stores every entry, starting from nothing.
pub proof fn lemma_unflattened_is_stored_all(es: Seq<(Seq<char>, Seq<char>)>)
    ensures
        unflattened_entries(es) == stored_all(Seq::empty(), es),
    decreases es.len(),
{
    if es.len() > 0 {
        lemma_unflattened_is_stored_all(es.drop_last());
    }
}

/// Storing two runs of entries one after the other stores their
/// concatenation.
pub proof fn lemma_stored_all_concat(
    acc: Seq<(Seq<char>, Tree)>,
    a: Seq<(Seq<char>, Seq<char>)>,
    b: Seq<(Seq<char>, Seq<char>)>,
)
    ensures
        stored_all(acc, a + b) == stored_all(stored_all(acc, a), b),
    decreases b.len(),
{
    if b.len() == 0 {
        assert(a + b =~= a);
    } else {
        assert((a + b).drop_last() =~= a + b.drop_last());
        lemma_stored_all_concat(acc, a, b.drop_last());
    }
}

/// The entries `acc` of a mapping with the tree `x` put at the end of `path`.
/// The mappings on the way are kept, with what they hold; anything else on
/// the way gives way to a mapping.
pub open spec fn graft(acc: Seq<(Seq<char>, Tree)>, path: Seq<Seq<char>>, x: Tree) -> Seq<
    (Seq<char>, Tree),
>
    decreases path.len(),
{
    if path.len() == 0 {
        acc
    } else if path.len() == 1 {
        put(acc, path[0], x)
    } else {
        put(acc, path[0], Tree::Mapping(graft(child_entries(acc, path[0]), path.drop_first(), x)))
    }
}

/// The entries of the mapping at the end of `path` below `acc`; none where
/// there is no mapping.
pub open spec fn descend(acc: Seq<(Seq<char>, Tree)>, path: Seq<Seq<char>>) -> Seq<
    (Seq<char>, Tree),
>
    decreases path.len(),
{
    if path.len() == 0 {
        acc
    } else {
        descend(child_entries(acc, path[0]), path.drop_first())
    }
}

/// The dotted key of a path.
pub open spec fn joined(path: Seq<Seq<char>>) -> Seq<char>
    decreases path.len(),
{
    if path.len() == 0 {
        Seq::empty()
    } else if path.len() == 1 {
        path[0]
    } else {
        joined(path.drop_last()) + seq!['.'] + path.last()
    }
}

/// Whether no key of the path holds a `.`.
pub open spec fn dot_free(path: Seq<Seq<char>>) -> bool {
    forall|i: int| 0 <= i < path.len() ==> !(#[trigger] path[i]).contains('.')
}

/// Storing a text at a path puts the value it stands for there.
pub proof fn lemma_stored_is_graft(acc: Seq<(Seq<char>, Tree)>, path: Seq<Seq<char>>, text: Seq<char>)
    ensures
        stored(acc, path, text) == graft(acc, path, inferred(text)),
    decreases path.len(),
{
    if path.len() > 1 {
        lemma_stored_is_graft(child_entries(acc, path[0]), path.drop_first(), text);
    }
}

/// Splitting the dotted key of a path whose keys hold no `.` gives the path.
pub proof fn lemma_split_joined(path: Seq<Seq<char>>)
    requires
        path.len() >= 1,
        dot_free(path),
    ensures
        split_on(joined(path), '.') == path,
    decreases path.len(),
{
    if path.len() == 1 {
        lemma_split_one(path[0], '.');
        assert(seq![path[0]] =~= path);
    } else {
        let head = path.drop_last();
        assert forall|i: int| 0 <= i < head.len() implies !(#[trigger] head[i]).contains('.') by {
            assert(head[i] == path[i]);
        }
        lemma_split_joined(head);
        assert(!path[path.len() - 1].contains('.'));
        lemma_split_append(joined(head), path.last(), '.');
        assert(head.push(path.last()) =~= path);
    }
}

/// What was stored under a key is found there.
pub proof fn lemma_value_at_put<V>(s: Seq<(Seq<char>, V)>, k: Seq<char>, v: V)
    ensures
        value_at(put(s, k, v), k) == Some(v),
    decreases s.len(),
{
    if s.len() > 0 && s[0].0 != k {
        let r = put(s, k, v);
        assert(r[0] == s[0]);
        assert(r.drop_first() =~= put(s.drop_first(), k, v));
        lemma_value_at_put(s.drop_first(), k, v);
    } else if s.len() > 0 {
        assert(put(s, k, v)[0] == (k, v));
    } else {
        assert(put(s, k, v)[0] == (k, v));
    }
}

/// Storing twice under a key leaves what was stored last.
pub proof fn lemma_put_put<V>(s: Seq<(Seq<char>, V)>, k: Seq<char>, a: V, b: V)
    ensures
        put(put(s, k, a), k, b) == put(s, k, b),
    decreases s.len(),
{
    let r = put(s, k, a);
    if s.len() == 0 {
        assert(r[0] == (k, a));
        assert(r.drop_first() =~= Seq::<(Seq<char>, V)>::empty());
        assert(put(r, k, b) =~= put(s, k, b));
    } else if s[0].0 == k {
        assert(r[0] == (k, a));
        assert(r.drop_first() =~= s.drop_first());
        assert(put(r, k, b) =~= put(s, k, b));
    } else {
        assert(r[0] == s[0]);
        assert(r.drop_first() =~= put(s.drop_first(), k, a));
        lemma_put_put(s.drop_first(), k, a, b);
        assert(put(r, k, b) =~= put(s, k, b));
    }
}

/// The first entry with a key is found at its place.
pub proof fn lemma_value_at_index<V>(s: Seq<(Seq<char>, V)>, k: Seq<char>) -> (i: int)
    requires
        value_at(s, k) is Some,
    ensures
        0 <= i < s.len(),
        s[i] == (k, value_at(s, k).unwrap()),
        forall|j: int| 0 <= j < i ==> (#[trigger] s[j]).0 != k,
    decreases s.len(),
{
    if s[0].0 == k {
        0
    } else {
        let rest = s.drop_first();
        let i = lemma_value_at_index(rest, k);
        assert(rest[i] == s[i + 1]);
        assert forall|j: int| 0 <= j < i + 1 implies (#[trigger] s[j]).0 != k by {
            if j > 0 {
                assert(rest[j - 1] == s[j]);
            }
        }
        i + 1
    }
}

/// Where nothing is found under a key, no entry has the key.
pub proof fn lemma_value_at_none<V>(s: Seq<(Seq<char>, V)>, k: Seq<char>)
    requires
        value_at(s, k) is None,
    ensures
        !has_key(s, k),
    decreases s.len(),
{
    if s.len() > 0 {
        lemma_value_at_none(s.drop_first(), k);
        if has_key(s, k) {
            let i = choose|i: int| 0 <= i < s.len() && (#[trigger] s[i]).0 == k;
            assert(i > 0);
            assert(s.drop_first()[i - 1] == s[i]);
        }
    }
}

/// Under a key that no entry has, nothing is found.
pub proof fn lemma_value_at_absent<V>(s: Seq<(Seq<char>, V)>, k: Seq<char>)
    requires
        !has_key(s, k),
    ensures
        value_at(s, k) is None,
    decreases s.len(),
{
    if s.len() > 0 {
        assert(s[0].0 != k);
        assert(!has_key(s.drop_first(), k)) by {
            if has_key(s.drop_first(), k) {
                let i = choose|i: int|
                    0 <= i < s.drop_first().len() && (#[trigger] s.drop_first()[i]).0 == k;
                assert(s[i + 1].0 == k);
            }
        }
        lemma_value_at_absent(s.drop_first(), k);
    }
}

/// Going down a path of one key is going to the mapping under the key.
pub proof fn lemma_descend_one(acc: Seq<(Seq<char>, Tree)>, path: Seq<Seq<char>>)
    requires
        path.len() == 1,
    ensures
        descend(acc, path) == child_entries(acc, path[0]),
{
    assert(path.drop_first().len() == 0);
    assert(descend(child_entries(acc, path[0]), path.drop_first()) == child_entries(acc, path[0]));
}

/// Going down a path and one key more is going down the longer path.
pub proof fn lemma_descend_push(acc: Seq<(Seq<char>, Tree)>, path: Seq<Seq<char>>, c: Seq<char>)
    ensures
        descend(acc, path.push(c)) == child_entries(descend(acc, path), c),
    decreases path.len(),
{
    let longer = path.push(c);
    if path.len() == 0 {
        assert(longer.drop_first() =~= Seq::<Seq<char>>::empty());
        assert(longer[0] == c);
        assert(descend(child_entries(acc, c), longer.drop_first()) == child_entries(acc, c));
    } else {
        assert(longer.drop_first() =~= path.drop_first().push(c));
        assert(longer[0] == path[0]);
        lemma_descend_push(child_entries(acc, path[0]), path.drop_first(), c);
    }
}

/// Putting a tree one key below a path is putting, at the path, the mapping
/// found there with the tree stored under the key.
pub proof fn lemma_graft_below(
    acc: Seq<(Seq<char>, Tree)>,
    path: Seq<Seq<char>>,
    c: Seq<char>,
    x: Tree,
)
    requires
        path.len() >= 1,
    ensures
        graft(acc, path.push(c), x) == graft(
            acc,
            path,
            Tree::Mapping(put(descend(acc, path), c, x)),
        ),
    decreases path.len(),
{
    let longer = path.push(c);
    assert(longer[0] == path[0]);
    assert(longer.drop_first() =~= path.drop_first().push(c));
    if path.len() == 1 {
        assert(path.drop_first() =~= Seq::<Seq<char>>::empty());
        assert(longer.drop_first() =~= seq![c]);
        lemma_descend_one(acc, path);
        assert(graft(child_entries(acc, path[0]), seq![c], x) == put(
            child_entries(acc, path[0]),
            c,
            x,
        ));
    } else {
        lemma_graft_below(child_entries(acc, path[0]), path.drop_first(), c, x);
    }
}

/// The mapping put at a path is found at the path.
pub proof fn lemma_descend_graft(
    acc: Seq<(Seq<char>, Tree)>,
    path: Seq<Seq<char>>,
    r: Seq<(Seq<char>, Tree)>,
)
    requires
        path.len() >= 1,
    ensures
        descend(graft(acc, path, Tree::Mapping(r)), path) == r,
    decreases path.len(),
{
    if path.len() == 1 {
        lemma_value_at_put(acc, path[0], Tree::Mapping(r));
        lemma_descend_one(graft(acc, path, Tree::Mapping(r)), path);
    } else {
        let inner = graft(child_entries(acc, path[0]), path.drop_first(), Tree::Mapping(r));
        lemma_value_at_put(acc, path[0], Tree::Mapping(inner));
        lemma_descend_graft(child_entries(acc, path[0]), path.drop_first(), r);
        assert(child_entries(graft(acc, path, Tree::Mapping(r)), path[0]) == inner);
    }
}

/// Putting a tree where one was put before replaces it.
pub proof fn lemma_graft_graft(acc: Seq<(Seq<char>, Tree)>, path: Seq<Seq<char>>, y: Tree, z: Tree)
    requires
        path.len() >= 1,
    ensures
        graft(graft(acc, path, y), path, z) == graft(acc, path, z),
    decreases path.len(),
{
    if path.len() == 1 {
        lemma_put_put(acc, path[0], y, z);
    } else {
        let below = child_entries(acc, path[0]);
        let rest = path.drop_first();
        let first = Tree::Mapping(graft(below, rest, y));
        lemma_value_at_put(acc, path[0], first);
        lemma_graft_graft(below, rest, y, z);
        lemma_put_put(acc, path[0], first, Tree::Mapping(graft(below, rest, z)));
    }
}

/// The tree with every leaf typed anew from its text.
pub open spec fn retyped(t: Tree) -> Tree
    decreases t,
{
    match t {
        Tree::Mapping(m) => Tree::Mapping(retyped_entries(m)),
        Tree::Sequence(_) => t,
        Tree::Tagged => t,
        _ => inferred(scalar_text(t).unwrap()),
    }
}

/// The entries of a mapping with every leaf below them typed anew.
pub open spec fn retyped_entries(m: Seq<(Seq<char>, Tree)>) -> Seq<(Seq<char>, Tree)>
    decreases m,
{
    if m.len() == 0 {
        Seq::empty()
    } else {
        retyped_entries(m.drop_last()).push((m.last().0, retyped(m.last().1)))
    }
}

/// Whether a tree below the root comes back from its flat entries: a leaf,
/// or a mapping that is not empty, with distinct keys without `.`, whose
/// values come back too.
pub open spec fn comes_back(t: Tree) -> bool
    decreases t,
{
    match t {
        Tree::Mapping(m) => m.len() > 0 && distinct_keys(m) && entries_come_back(m),
        Tree::Sequence(_) => false,
        Tree::Tagged => false,
        _ => true,
    }
}

/// Whether every entry has a key without `.` and a value that comes back.
pub open spec fn entries_come_back(m: Seq<(Seq<char>, Tree)>) -> bool
    decreases m,
{
    m.len() == 0 || (entries_come_back(m.drop_last()) && !m.last().0.contains('.') && comes_back(
        m.last().1,
    ))
}

/// Whether no mapping stands under the empty key.
pub open spec fn named_mappings(acc: Seq<(Seq<char>, Tree)>) -> bool {
    forall|i: int| 0 <= i < acc.len() && (#[trigger] acc[i]).0.len() == 0 ==> !(acc[i].1 is Mapping)
}

/// Whether a tree comes back from its flat entries: a mapping with distinct
/// keys without `.`, whose values come back, and which holds no mapping under
/// the empty key.
pub open spec fn flat_safe(t: Tree) -> bool {
    &&& t is Mapping
    &&& distinct_keys(t->Mapping_0)
    &&& entries_come_back(t->Mapping_0)
    &&& named_mappings(t->Mapping_0)
}

/// What holds of all entries holds of each, and the entries typed anew keep
/// their keys.
pub proof fn lemma_entries_come_back(m: Seq<(Seq<char>, Tree)>)
    ensures
        retyped_entries(m).len() == m.len(),
        forall|i: int|
            0 <= i < m.len() ==> #[trigger] retyped_entries(m)[i] == (m[i].0, retyped(m[i].1)),
        entries_come_back(m) ==> forall|i: int|
            0 <= i < m.len() ==> !(#[trigger] m[i]).0.contains('.') && comes_back(m[i].1),
    decreases m.len(),
{
    if m.len() > 0 {
        lemma_entries_come_back(m.drop_last());
        assert forall|i: int| 0 <= i < m.len() implies #[trigger] retyped_entries(m)[i] == (
            m[i].0,
            retyped(m[i].1),
        ) by {
            if i < m.len() - 1 {
                assert(m.drop_last()[i] == m[i]);
            }
        }
        if entries_come_back(m) {
            assert forall|i: int| 0 <= i < m.len() implies !(#[trigger] m[i]).0.contains('.')
                && comes_back(m[i].1) by {
                if i < m.len() - 1 {
                    assert(m.drop_last()[i] == m[i]);
                }
            }
        }
    }
}

/// The first entries of a mapping that comes back have what it takes too.
pub proof fn lemma_entries_prefix(m: Seq<(Seq<char>, Tree)>)
    requires
        m.len() > 0,
        distinct_keys(m),
        entries_come_back(m),
    ensures
        distinct_keys(m.drop_last()),
        entries_come_back(m.drop_last()),
        !has_key(m.drop_last(), m.last().0),
        !has_key(retyped_entries(m.drop_last()), m.last().0),
{
    let head = m.drop_last();
    assert forall|i: int, j: int| 0 <= i < j < head.len() implies (#[trigger] head[i]).0 != (
    #[trigger] head[j]).0 by {
        assert(head[i] == m[i] && head[j] == m[j]);
    }
    lemma_entries_come_back(head);
    if has_key(head, m.last().0) {
        let i = choose|i: int| 0 <= i < head.len() && (#[trigger] head[i]).0 == m.last().0;
        assert(head[i] == m[i]);
        assert(m[i].0 != m[m.len() - 1].0);
    }
    if has_key(retyped_entries(head), m.last().0) {
        let i = choose|i: int|
            0 <= i < retyped_entries(head).len() && (#[trigger] retyped_entries(head)[i]).0
                == m.last().0;
        assert(head[i] == m[i]);
        assert(m[i].0 != m[m.len() - 1].0);
    }
}

/// The key of an entry of a mapping under a path is the dotted key of the
/// longer path.
pub proof fn lemma_child_key_joined(path: Seq<Seq<char>>, c: Seq<char>)
    requires
        path.len() >= 1,
        joined(path).len() > 0,
    ensures
        child_key(joined(path), c) == joined(path.push(c)),
        joined(path.push(c)).len() > 0,
{
    assert(path.push(c).drop_last() =~= path);
}

/// Storing the flat entries of a tree that comes back puts the tree, with its
/// leaves typed anew, at the path of its key, where no mapping stood there
/// before.
pub proof fn lemma_store_tree(acc: Seq<(Seq<char>, Tree)>, path: Seq<Seq<char>>, w: Tree)
    requires
        path.len() >= 1,
        dot_free(path),
        comes_back(w),
        w is Mapping ==> joined(path).len() > 0 && descend(acc, path) == Seq::<
            (Seq<char>, Tree),
        >::empty(),
    ensures
        stored_all(acc, leaves(w, joined(path))) == graft(acc, path, retyped(w)),
    decreases w, 1nat,
{
    match w {
        Tree::Mapping(m) => {
            lemma_store_entries(acc, path, m);
        },
        Tree::Sequence(_) => {},
        Tree::Tagged => {},
        _ => {
            let text = scalar_text(w).unwrap();
            let one = seq![(joined(path), text)];
            assert(leaves(w, joined(path)) == one);
            assert(one.drop_last() =~= Seq::<(Seq<char>, Seq<char>)>::empty());
            assert(stored_all(acc, one.drop_last()) == acc);
            lemma_split_joined(path);
            lemma_stored_is_graft(acc, path, text);
        },
    }
}

/// Storing the flat entries of the entries of a mapping that comes back puts
/// the mapping, with its leaves typed anew, at the path of its key, where no
/// mapping stood there before.
pub proof fn lemma_store_entries(
    acc: Seq<(Seq<char>, Tree)>,
    path: Seq<Seq<char>>,
    m: Seq<(Seq<char>, Tree)>,
)
    requires
        path.len() >= 1,
        dot_free(path),
        joined(path).len() > 0,
        m.len() > 0,
        distinct_keys(m),
        entries_come_back(m),
        descend(acc, path) == Seq::<(Seq<char>, Tree)>::empty(),
    ensures
        stored_all(acc, mapping_leaves(m, joined(path))) == graft(
            acc,
            path,
            Tree::Mapping(retyped_entries(m)),
        ),
    decreases m, 0nat,
{
    let head = m.drop_last();
    let c = m.last().0;
    let w = m.last().1;
    let longer = path.push(c);
    let nothing = Seq::<(Seq<char>, Tree)>::empty();
    lemma_entries_prefix(m);
    lemma_entries_come_back(m);
    assert(!m[m.len() - 1].0.contains('.') && comes_back(m[m.len() - 1].1));
    lemma_child_key_joined(path, c);
    assert forall|i: int| 0 <= i < longer.len() implies !(#[trigger] longer[i]).contains('.') by {
        if i < path.len() {
            assert(longer[i] == path[i]);
        }
    }
    let before = if head.len() == 0 {
        acc
    } else {
        graft(acc, path, Tree::Mapping(retyped_entries(head)))
    };
    let found = if head.len() == 0 {
        nothing
    } else {
        retyped_entries(head)
    };
    if head.len() > 0 {
        lemma_store_entries(acc, path, head);
        lemma_descend_graft(acc, path, retyped_entries(head));
    } else {
        assert(mapping_leaves(head, joined(path)) =~= Seq::<(Seq<char>, Seq<char>)>::empty());
    }
    assert(stored_all(acc, mapping_leaves(head, joined(path))) == before);
    assert(descend(before, path) == found);
    assert(!has_key(found, c));
    lemma_descend_push(before, path, c);
    lemma_value_at_absent(found, c);
    assert(descend(before, longer) == nothing);
    lemma_store_tree(before, longer, w);
    lemma_stored_all_concat(acc, mapping_leaves(head, joined(path)), leaves(w, joined(longer)));
    lemma_graft_below(before, path, c, retyped(w));
    lemma_put_absent(found, c, retyped(w));
    assert(found.push((c, retyped(w))) =~= retyped_entries(m));
    if head.len() > 0 {
        lemma_graft_graft(
            acc,
            path,
            Tree::Mapping(retyped_entries(head)),
            Tree::Mapping(retyped_entries(m)),
        );
    }
}

/// Whether the dotted key `key` is `q` or lies below it: it starts with `q`,
/// and ends there or goes on with a `.`.
pub open spec fn under(key: Seq<char>, q: Seq<char>) -> bool {
    &&& key.len() >= q.len()
    &&& key.take(q.len() as int) == q
    &&& (key.len() == q.len() || key[q.len() as int] == '.')
}

/// No dotted key lies below two entries of one mapping.
pub proof fn lemma_not_under_both(key: Seq<char>, q: Seq<char>, a: Seq<char>, b: Seq<char>)
    requires
        a != b,
        !a.contains('.'),
        !b.contains('.'),
        under(key, child_key(q, a)),
    ensures
        !under(key, child_key(q, b)),
{
    let pre = if q.len() == 0 {
        Seq::<char>::empty()
    } else {
        q + seq!['.']
    };
    assert(child_key(q, a) =~= pre + a);
    assert(child_key(q, b) =~= pre + b);
    if under(key, child_key(q, b)) {
        let ka = key.take((pre + a).len() as int);
        let kb = key.take((pre + b).len() as int);
        if a.len() == b.len() {
            assert forall|i: int| 0 <= i < a.len() implies a[i] == b[i] by {
                assert(ka[pre.len() + i] == (pre + a)[pre.len() + i]);
                assert(kb[pre.len() + i] == (pre + b)[pre.len() + i]);
            }
            assert(a =~= b);
        } else if a.len() < b.len() {
            assert(kb[(pre.len() + a.len()) as int] == (pre + b)[(pre.len() + a.len()) as int]);
            assert(b[a.len() as int] == '.');
        } else {
            assert(ka[(pre.len() + b.len()) as int] == (pre + a)[(pre.len() + b.len()) as int]);
            assert(a[b.len() as int] == '.');
        }
    }
}

/// A key that lies below an entry of a mapping lies below the mapping.
pub proof fn lemma_under_parent(key: Seq<char>, q: Seq<char>, c: Seq<char>)
    requires
        q.len() > 0,
        under(key, child_key(q, c)),
    ensures
        under(key, q),
{
    let longer = child_key(q, c);
    assert(longer =~= q + seq!['.'] + c);
    assert(key.take(q.len() as int) =~= q) by {
        assert forall|i: int| 0 <= i < q.len() implies key[i] == q[i] by {
            assert(key.take(longer.len() as int)[i] == longer[i]);
        }
    }
    assert(key.take(longer.len() as int)[q.len() as int] == longer[q.len() as int]);
}

/// The key of every flat entry of a tree that comes back lies at or below the
/// key of the tree.
pub proof fn lemma_leaves_under(w: Tree, q: Seq<char>, i: int)
    requires
        comes_back(w),
        w is Mapping ==> q.len() > 0,
        0 <= i < leaves(w, q).len(),
    ensures
        under(leaves(w, q)[i].0, q),
    decreases w, 1nat,
{
    match w {
        Tree::Mapping(m) => {
            let j = lemma_mapping_leaves_under(m, q, i);
            lemma_under_parent(mapping_leaves(m, q)[i].0, q, m[j].0);
        },
        Tree::Sequence(_) => {},
        Tree::Tagged => {},
        _ => {
            assert(leaves(w, q)[0].0 == q);
            assert(q.take(q.len() as int) =~= q);
        },
    }
}

/// The key of every flat entry of a mapping's entries lies at or below the
/// key of one of them.
pub proof fn lemma_mapping_leaves_under(m: Seq<(Seq<char>, Tree)>, q: Seq<char>, i: int) -> (j:
    int)
    requires
        entries_come_back(m),
        forall|k: int|
            0 <= k < m.len() && (#[trigger] m[k]).1 is Mapping ==> child_key(q, m[k].0).len() > 0,
        0 <= i < mapping_leaves(m, q).len(),
    ensures
        0 <= j < m.len(),
        under(mapping_leaves(m, q)[i].0, child_key(q, m[j].0)),
    decreases m, 0nat,
{
    let head = m.drop_last();
    let first = mapping_leaves(head, q);
    let last = leaves(m.last().1, child_key(q, m.last().0));
    lemma_entries_come_back(m);
    assert(comes_back(m[m.len() - 1].1));
    if i < first.len() {
        assert forall|k: int| 0 <= k < head.len() && (#[trigger] head[k]).1 is Mapping implies child_key(
            q,
            head[k].0,
        ).len() > 0 by {
            assert(head[k] == m[k]);
        }
        let j = lemma_mapping_leaves_under(head, q, i);
        assert(head[j] == m[j]);
        assert(mapping_leaves(m, q)[i] == first[i]);
        j
    } else {
        assert(mapping_leaves(m, q)[i] == last[i - first.len()]);
        lemma_leaves_under(m.last().1, child_key(q, m.last().0), i - first.len());
        m.len() - 1
    }
}

/// The flat entries of a tree that comes back have distinct keys.
pub proof fn lemma_leaves_distinct(w: Tree, q: Seq<char>)
    requires
        comes_back(w),
        w is Mapping ==> q.len() > 0,
    ensures
        distinct_keys(leaves(w, q)),
    decreases w, 1nat,
{
    match w {
        Tree::Mapping(m) => {
            lemma_mapping_leaves_distinct(m, q);
        },
        _ => {},
    }
}

/// The flat entries of the entries of a mapping that comes back have distinct
/// keys.
pub proof fn lemma_mapping_leaves_distinct(m: Seq<(Seq<char>, Tree)>, q: Seq<char>)
    requires
        distinct_keys(m),
        entries_come_back(m),
        forall|k: int|
            0 <= k < m.len() && (#[trigger] m[k]).1 is Mapping ==> child_key(q, m[k].0).len() > 0,
    ensures
        distinct_keys(mapping_leaves(m, q)),
    decreases m, 0nat,
{
    if m.len() > 0 {
        let head = m.drop_last();
        let first = mapping_leaves(head, q);
        let c = m.last().0;
        let last = leaves(m.last().1, child_key(q, c));
        let all = mapping_leaves(m, q);
        lemma_entries_prefix(m);
        lemma_entries_come_back(m);
        assert(comes_back(m[m.len() - 1].1) && !m[m.len() - 1].0.contains('.'));
        assert forall|k: int| 0 <= k < head.len() && (#[trigger] head[k]).1 is Mapping implies child_key(
            q,
            head[k].0,
        ).len() > 0 by {
            assert(head[k] == m[k]);
        }
        lemma_mapping_leaves_distinct(head, q);
        lemma_leaves_distinct(m.last().1, child_key(q, c));
        assert forall|a: int, b: int| 0 <= a < b < all.len() implies (#[trigger] all[a]).0 != (
        #[trigger] all[b]).0 by {
            if b < first.len() {
                assert(all[a] == first[a] && all[b] == first[b]);
            } else if a >= first.len() {
                assert(all[a] == last[a - first.len()] && all[b] == last[b - first.len()]);
            } else {
                assert(all[a] == first[a] && all[b] == last[b - first.len()]);
                let j = lemma_mapping_leaves_under(head, q, a);
                lemma_leaves_under(m.last().1, child_key(q, c), b - first.len());
                assert(head[j] == m[j]);
                assert(m[j].0 != m[m.len() - 1].0);
                lemma_not_under_both(all[a].0, q, m[j].0, c);
            }
        }
    }
}

/// Storing entries with distinct keys one after another, starting from
/// nothing, gives the entries.
pub proof fn lemma_put_all_distinct_entries<V>(s: Seq<(Seq<char>, V)>)
    requires
        distinct_keys(s),
    ensures
        put_all(Seq::empty(), s) == s,
    decreases s.len(),
{
    if s.len() == 0 {
        assert(put_all(Seq::<(Seq<char>, V)>::empty(), s) =~= s);
    } else {
        let head = s.drop_last();
        assert forall|i: int, j: int| 0 <= i < j < head.len() implies (#[trigger] head[i]).0 != (
        #[trigger] head[j]).0 by {
            assert(head[i] == s[i] && head[j] == s[j]);
        }
        lemma_put_all_distinct_entries(head);
        assert(!has_key(head, s.last().0)) by {
            if has_key(head, s.last().0) {
                let i = choose|i: int| 0 <= i < head.len() && (#[trigger] head[i]).0 == s.last().0;
                assert(head[i] == s[i]);
                assert(s[i].0 != s[s.len() - 1].0);
            }
        }
        lemma_put_absent(head, s.last().0, s.last().1);
        assert(head.push(s.last()) =~= s);
    }
}

/// Storing the flat entries of the entries of a root mapping that comes back
/// gives the entries, with their leaves typed anew.
pub proof fn lemma_store_root(m: Seq<(Seq<char>, Tree)>)
    requires
        distinct_keys(m),
        entries_come_back(m),
        forall|i: int| 0 <= i < m.len() && (#[trigger] m[i]).0.len() == 0 ==> !(m[i].1 is Mapping),
    ensures
        stored_all(Seq::empty(), mapping_leaves(m, Seq::empty())) == retyped_entries(m),
    decreases m.len(),
{
    let nothing = Seq::<(Seq<char>, Tree)>::empty();
    let root = Seq::<char>::empty();
    if m.len() > 0 {
        let head = m.drop_last();
        let c = m.last().0;
        let w = m.last().1;
        let path = seq![c];
        lemma_entries_prefix(m);
        lemma_entries_come_back(m);
        assert(!m[m.len() - 1].0.contains('.') && comes_back(m[m.len() - 1].1));
        assert forall|i: int| 0 <= i < head.len() && (#[trigger] head[i]).0.len() == 0 implies !(
        head[i].1 is Mapping) by {
            assert(head[i] == m[i]);
        }
        lemma_store_root(head);
        let before = retyped_entries(head);
        assert(child_key(root, c) == c);
        assert(joined(path) == c);
        lemma_value_at_absent(before, c);
        lemma_descend_one(before, path);
        assert(m[m.len() - 1].0.len() == 0 ==> !(m[m.len() - 1].1 is Mapping));
        lemma_store_tree(before, path, w);
        lemma_stored_all_concat(nothing, mapping_leaves(head, root), leaves(w, c));
        lemma_put_absent(before, c, retyped(w));
        assert(before.push((c, retyped(w))) =~= retyped_entries(m));
    } else {
        assert(mapping_leaves(m, root) =~= Seq::<(Seq<char>, Seq<char>)>::empty());
    }
}

/// Unflattening the flat entries of a tree that comes back gives the tree,
/// with every leaf typed anew from its text and every key in its place.
pub proof fn lemma_unflatten_flatten(t: Tree)
    requires
        flat_safe(t),
    ensures
        unflattened(flattened(t)) == retyped(t),
{
    let m = t->Mapping_0;
    let root = Seq::<char>::empty();
    assert forall|k: int| 0 <= k < m.len() && (#[trigger] m[k]).1 is Mapping implies child_key(
        root,
        m[k].0,
    ).len() > 0 by {
        assert(child_key(root, m[k].0) == m[k].0);
    }
    lemma_mapping_leaves_distinct(m, root);
    lemma_put_all_distinct_entries(leaves(t, root));
    lemma_unflattened_is_stored_all(leaves(t, root));
    lemma_store_root(m);
}

/// Whether typing the text anew gives a value with the same text.
pub open spec fn stable_text(text: Seq<char>) -> bool {
    scalar_text(inferred(text)) == Some(text)
}

/// Whether every leaf of the tree has a text that typing anew leaves as it
/// is.
pub open spec fn stable(t: Tree) -> bool
    decreases t,
{
    match t {
        Tree::Mapping(m) => stable_entries(m),
        Tree::Sequence(_) => true,
        Tree::Tagged => true,
        _ => stable_text(scalar_text(t).unwrap()),
    }
}

/// Whether every leaf below the entries has a stable text.
pub open spec fn stable_entries(m: Seq<(Seq<char>, Tree)>) -> bool
    decreases m,
{
    m.len() == 0 || (stable_entries(m.drop_last()) && stable(m.last().1))
}

/// The tree with every leaf as a text: the keys of the tree and what its
/// leaves are written as.
pub open spec fn rendered(t: Tree) -> Tree
    decreases t,
{
    match t {
        Tree::Mapping(m) => Tree::Mapping(rendered_entries(m)),
        Tree::Sequence(_) => t,
        Tree::Tagged => t,
        _ => Tree::String(scalar_text(t).unwrap()),
    }
}

/// The entries of a mapping with every leaf below them as a text.
pub open spec fn rendered_entries(m: Seq<(Seq<char>, Tree)>) -> Seq<(Seq<char>, Tree)>
    decreases m,
{
    if m.len() == 0 {
        Seq::empty()
    } else {
        rendered_entries(m.drop_last()).push((m.last().0, rendered(m.last().1)))
    }
}

/// Typing anew the leaves of a tree with stable texts changes no key and no
/// text.
pub proof fn lemma_retyped_rendering(t: Tree)
    requires
        stable(t),
    ensures
        rendered(retyped(t)) == rendered(t),
    decreases t, 1nat,
{
    match t {
        Tree::Mapping(m) => {
            lemma_retyped_rendering_entries(m);
        },
        Tree::Sequence(_) => {},
        Tree::Tagged => {},
        _ => {
            let text = scalar_text(t).unwrap();
            assert(scalar_text(inferred(text)) == Some(text));
        },
    }
}

/// Typing anew the leaves below entries with stable texts changes no key and
/// no text.
pub proof fn lemma_retyped_rendering_entries(m: Seq<(Seq<char>, Tree)>)
    requires
        stable_entries(m),
    ensures
        rendered_entries(retyped_entries(m)) == rendered_entries(m),
    decreases m, 0nat,
{
    if m.len() > 0 {
        lemma_retyped_rendering_entries(m.drop_last());
        lemma_retyped_rendering(m.last().1);
        let r = retyped_entries(m);
        assert(r.drop_last() =~= retyped_entries(m.drop_last()));
        assert(r.last() == (m.last().0, retyped(m.last().1)));
    }
}

/// Flattening a tree that comes back, whose leaves have stable texts, and
/// unflattening the result gives a mapping with the same keys, in the same
/// places, and the same texts.
pub proof fn lemma_round_trip_rendering(t: Tree)
    requires
        flat_safe(t),
        stable(t),
    ensures
        rendered(unflattened(flattened(t))) == rendered(t),
{
    lemma_unflatten_flatten(t);
    lemma_retyped_rendering(t);
}

/// No piece of a dotted key holds a `.`.
pub proof fn lemma_pieces_dot_free(k: Seq<char>)
    ensures
        split_on(k, '.').len() >= 1,
        dot_free(split_on(k, '.')),
    decreases k.len(),
{
    crate::text::lemma_split_on_len(k, '.');
    let pieces = split_on(k, '.');
    if k.len() == 0 {
        assert forall|i: int| 0 <= i < pieces.len() implies !(#[trigger] pieces[i]).contains('.') by {
            assert(pieces[i].len() == 0);
        }
    } else {
        let h = k.drop_last();
        let c = k.last();
        let before = split_on(h, '.');
        lemma_pieces_dot_free(h);
        assert forall|i: int| 0 <= i < pieces.len() implies !(#[trigger] pieces[i]).contains('.') by {
            if i < before.len() - 1 {
                assert(pieces[i] == before[i]);
            } else if c == '.' {
                if i == before.len() - 1 {
                    assert(pieces[i] == before[i]);
                } else {
                    assert(pieces[i].len() == 0);
                }
            } else {
                let grown = before.last().push(c);
                assert(pieces[i] == grown);
                if grown.contains('.') {
                    let j = choose|j: int| 0 <= j < grown.len() && grown[j] == '.';
                    assert(before.last()[j] == '.');
                    assert(before[before.len() - 1].contains('.'));
                }
            }
        }
    }
}

/// Storing a text at a path of keys without `.` keeps what it takes for a
/// mapping to come back: distinct keys without `.` at every depth, and no
/// mapping that is empty below the root.
pub proof fn lemma_stored_comes_back(
    acc: Seq<(Seq<char>, Tree)>,
    path: Seq<Seq<char>>,
    text: Seq<char>,
)
    requires
        distinct_keys(acc),
        entries_come_back(acc),
        path.len() >= 1,
        dot_free(path),
    ensures
        distinct_keys(stored(acc, path, text)),
        entries_come_back(stored(acc, path, text)),
        stored(acc, path, text).len() > 0,
        named_mappings(acc) && (path[0].len() > 0 || path.len() == 1) ==> named_mappings(
            stored(acc, path, text),
        ),
    decreases path.len(),
{
    let c = path[0];
    let rest = path.drop_first();
    let below = child_entries(acc, c);
    lemma_entries_come_back(acc);
    if path.len() > 1 {
        assert forall|i: int| 0 <= i < rest.len() implies !(#[trigger] rest[i]).contains('.') by {
            assert(rest[i] == path[i + 1]);
        }
        match crate::unflatten::value_at(acc, c) {
            Some(Tree::Mapping(found)) => {
                let i = lemma_value_at_index(acc, c);
                assert(comes_back(acc[i].1));
            },
            _ => {},
        }
        lemma_stored_comes_back(below, rest, text);
    }
    let x = if path.len() == 1 {
        inferred(text)
    } else {
        Tree::Mapping(stored(below, rest, text))
    };
    assert(comes_back(x));
    let r = put(acc, c, x);
    assert(r == stored(acc, path, text));
    crate::flat::lemma_put_keys(acc, c, x);
    crate::flat::lemma_put_entries(acc, c, x);
    assert(!path[0].contains('.'));
    assert forall|i: int| 0 <= i < r.len() implies !(#[trigger] r[i]).0.contains('.') && comes_back(
        r[i].1,
    ) by {
        if r[i] != (c, x) {
            let j = choose|j: int| 0 <= j < acc.len() && r[i] == acc[j];
            assert(comes_back(acc[j].1));
        }
    }
    lemma_entries_come_back_each(r);
    if r.len() == 0 {
        assert(crate::flat::has_key(r, c));
    }
    if named_mappings(acc) && (path[0].len() > 0 || path.len() == 1) {
        assert forall|i: int| 0 <= i < r.len() && (#[trigger] r[i]).0.len() == 0 implies !(
        r[i].1 is Mapping) by {
            if r[i] != (c, x) {
                let j = choose|j: int| 0 <= j < acc.len() && r[i] == acc[j];
                assert(acc[j].0.len() == 0);
            }
        }
    }
}

/// Entries whose keys hold no `.` and whose values come back, each of them,
/// come back all.
pub proof fn lemma_entries_come_back_each(m: Seq<(Seq<char>, Tree)>)
    requires
        forall|i: int| 0 <= i < m.len() ==> !(#[trigger] m[i]).0.contains('.') && comes_back(m[i].1),
    ensures
        entries_come_back(m),
    decreases m.len(),
{
    if m.len() > 0 {
        let head = m.drop_last();
        assert forall|i: int| 0 <= i < head.len() implies !(#[trigger] head[i]).0.contains('.')
            && comes_back(head[i].1) by {
            assert(head[i] == m[i]);
        }
        lemma_entries_come_back_each(head);
        assert(!m[m.len() - 1].0.contains('.') && comes_back(m[m.len() - 1].1));
    }
}

/// Whether a dotted key starts with a `.`.
pub open spec fn starts_with_dot(k: Seq<char>) -> bool {
    k.len() > 0 && k[0] == '.'
}

/// The first piece of a dotted key is empty only where the key is empty or
/// starts with a `.`; and a key of one piece holds no `.`.
pub proof fn lemma_split_first(k: Seq<char>)
    ensures
        split_on(k, '.').len() >= 1,
        split_on(k, '.')[0].len() == 0 <==> (k.len() == 0 || k[0] == '.'),
        split_on(k, '.').len() == 1 ==> !k.contains('.'),
        k.len() == 0 ==> split_on(k, '.').len() == 1,
    decreases k.len(),
{
    crate::text::lemma_split_on_len(k, '.');
    if k.len() > 0 {
        let h = k.drop_last();
        let c = k.last();
        let pieces = split_on(h, '.');
        lemma_split_first(h);
        if h.len() > 0 {
            assert(h[0] == k[0]);
        } else {
            assert(k[0] == c);
        }
        if c != '.' && pieces.len() == 1 {
            if k.contains('.') {
                let i = choose|i: int| 0 <= i < k.len() && k[i] == '.';
                if i < h.len() {
                    assert(h[i] == '.');
                    assert(h.contains('.'));
                }
            }
            if h.len() > 0 {
                assert(h.contains(h[0]));
            }
        }
    }
}

/// Whatever entries are unflattened, the tree has distinct keys without `.`
/// at every depth and no empty mapping below the root; and no mapping under
/// the empty key where no key of the entries starts with a `.`.
pub proof fn lemma_unflattened_shape(es: Seq<(Seq<char>, Seq<char>)>)
    ensures
        distinct_keys(unflattened_entries(es)),
        entries_come_back(unflattened_entries(es)),
        (forall|i: int| 0 <= i < es.len() ==> !starts_with_dot((#[trigger] es[i]).0))
            ==> named_mappings(unflattened_entries(es)),
    decreases es.len(),
{
    if es.len() > 0 {
        let head = es.drop_last();
        let k = es.last().0;
        lemma_unflattened_shape(head);
        lemma_pieces_dot_free(k);
        lemma_split_first(k);
        lemma_stored_comes_back(unflattened_entries(head), split_on(k, '.'), es.last().1);
        if forall|i: int| 0 <= i < es.len() ==> !starts_with_dot((#[trigger] es[i]).0) {
            assert forall|i: int| 0 <= i < head.len() implies !starts_with_dot(
                (#[trigger] head[i]).0,
            ) by {
                assert(head[i] == es[i]);
            }
            assert(!starts_with_dot(es[es.len() - 1].0));
        }
    }
}

/// A tree whose leaves typed anew give a tree that comes back comes back
/// itself.
pub proof fn lemma_retyped_comes_back(w: Tree)
    requires
        comes_back(retyped(w)),
    ensures
        comes_back(w),
    decreases w, 1nat,
{
    match w {
        Tree::Mapping(m) => {
            lemma_entries_come_back(m);
            assert(retyped_entries(m).len() == m.len());
            lemma_retyped_entries_come_back(m);
            assert forall|i: int, j: int| 0 <= i < j < m.len() implies (#[trigger] m[i]).0 != (
            #[trigger] m[j]).0 by {
                assert(retyped_entries(m)[i].0 == m[i].0);
                assert(retyped_entries(m)[j].0 == m[j].0);
            }
        },
        _ => {},
    }
}

/// Entries whose leaves typed anew give entries that come back come back
/// themselves.
pub proof fn lemma_retyped_entries_come_back(m: Seq<(Seq<char>, Tree)>)
    requires
        entries_come_back(retyped_entries(m)),
    ensures
        entries_come_back(m),
    decreases m, 0nat,
{
    if m.len() > 0 {
        let r = retyped_entries(m);
        assert(r.drop_last() =~= retyped_entries(m.drop_last()));
        assert(r.last() == (m.last().0, retyped(m.last().1)));
        lemma_retyped_entries_come_back(m.drop_last());
        lemma_retyped_comes_back(m.last().1);
    }
}

/// No flat key of the entries of a mapping whose keys hold no `.` starts with
/// a `.`, where the mapping stands at the root or under the empty key.
pub proof fn lemma_no_leading_dot(m: Seq<(Seq<char>, Tree)>, i: int)
    requires
        entries_come_back(m),
        0 <= i < mapping_leaves(m, Seq::empty()).len(),
    ensures
        !starts_with_dot(mapping_leaves(m, Seq::empty())[i].0),
    decreases m,
{
    let root = Seq::<char>::empty();
    let head = m.drop_last();
    let first = mapping_leaves(head, root);
    let c = m.last().0;
    let w = m.last().1;
    lemma_entries_come_back(m);
    assert(comes_back(m[m.len() - 1].1) && !m[m.len() - 1].0.contains('.'));
    assert(child_key(root, c) == c);
    if i < first.len() {
        lemma_no_leading_dot(head, i);
        assert(mapping_leaves(m, root)[i] == first[i]);
    } else {
        let j = i - first.len();
        let key = leaves(w, c)[j].0;
        assert(mapping_leaves(m, root)[i] == leaves(w, c)[j]);
        if c.len() > 0 {
            lemma_leaves_under(w, c, j);
            assert(key.take(c.len() as int)[0] == c[0]);
            assert(c.contains(c[0]));
        } else {
            assert(c =~= root);
            match w {
                Tree::Mapping(below) => {
                    lemma_no_leading_dot(below, j);
                },
                Tree::Sequence(_) => {},
                Tree::Tagged => {},
                _ => {
                    assert(key == c);
                },
            }
        }
    }
}

/// The entries stored one after another, starting from nothing, have keys of
/// the entries that were stored.
pub proof fn lemma_put_all_keys<V>(s: Seq<(Seq<char>, V)>, i: int) -> (j: int)
    requires
        0 <= i < put_all(Seq::empty(), s).len(),
    ensures
        0 <= j < s.len(),
        s[j].0 == put_all(Seq::empty(), s)[i].0,
    decreases s.len(),
{
    let nothing = Seq::<(Seq<char>, V)>::empty();
    let head = s.drop_last();
    let before = put_all(nothing, head);
    let all = put_all(nothing, s);
    crate::flat::lemma_put_entries(before, s.last().0, s.last().1);
    if all[i] == s.last() {
        s.len() - 1
    } else {
        let p = choose|p: int| 0 <= p < before.len() && all[i] == before[p];
        lemma_put_all_keys(head, p)
    }
}

/// Unflattening the flat entries of a tree gives the tree with its leaves
/// typed anew only for a tree that comes back from its flat entries.
pub proof fn lemma_unflatten_flatten_only(t: Tree)
    requires
        unflattened(flattened(t)) == retyped(t),
    ensures
        flat_safe(t),
{
    let root = Seq::<char>::empty();
    let es = flattened(t);
    let r = unflattened_entries(es);
    let m = t->Mapping_0;
    lemma_unflattened_shape(es);
    assert(retyped(t) == Tree::Mapping(retyped_entries(m)));
    lemma_entries_come_back(m);
    lemma_retyped_entries_come_back(m);
    assert forall|i: int, j: int| 0 <= i < j < m.len() implies (#[trigger] m[i]).0 != (
    #[trigger] m[j]).0 by {
        assert(r[i].0 == m[i].0 && r[j].0 == m[j].0);
    }
    assert forall|i: int| 0 <= i < es.len() implies !starts_with_dot((#[trigger] es[i]).0) by {
        let j = lemma_put_all_keys(leaves(t, root), i);
        lemma_no_leading_dot(m, j);
    }
    assert forall|i: int| 0 <= i < m.len() && (#[trigger] m[i]).0.len() == 0 implies !(
    m[i].1 is Mapping) by {
        assert(r[i] == (m[i].0, retyped(m[i].1)));
    }
}

/// Unflattening the flat entries of a tree gives the tree, with every leaf
/// typed anew from its text, for the trees that come back from their flat
/// entries and for no others.
pub proof fn lemma_unflatten_flatten_exactly(t: Tree)
    ensures
        unflattened(flattened(t)) == retyped(t) <==> flat_safe(t),
{
    if flat_safe(t) {
        lemma_unflatten_flatten(t);
    }
    if unflattened(flattened(t)) == retyped(t) {
        lemma_unflatten_flatten_only(t);
    }
}

} // verus!
