//! Flattening: from a tree to flat entries under dotted keys.
//!
//! The key of a leaf is the path to it: the keys of the mappings on the way,
//! joined by `.`, and `[i]` behind the key of a sequence for its item `i`.

use crate::flat::{distinct_keys, put_all, FlatMap};
use crate::numeral::{decimal_of, decimal_text, numeral, numeral_of};
use crate::text::{chars_of, push_all, string_of};
use crate::value::{lemma_mapping_view, lemma_sequence_view, Number, NumberView, Tree, ConfigValue};
use vstd::prelude::*;

verus! {

/// The text of a leaf: empty for null, `true` or `false` for a truth value,
/// the decimal text of a number, a text as it is. A node that is no leaf has
/// none.
pub open spec fn scalar_text(t: Tree) -> Option<Seq<char>> {
    match t {
        Tree::Null => Some(Seq::empty()),
        Tree::Bool(b) => Some(
            if b {
                seq!['t', 'r', 'u', 'e']
            } else {
                seq!['f', 'a', 'l', 's', 'e']
            },
        ),
        Tree::Number(NumberView::Integer(n)) => Some(decimal_text(n)),
        Tree::Number(NumberView::Float(text)) => Some(text),
        Tree::String(s) => Some(s),
        _ => None,
    }
}

/// The key of what a mapping under `prefix` holds under `key`.
pub open spec fn child_key(prefix: Seq<char>, key: Seq<char>) -> Seq<char> {
    if prefix.len() == 0 {
        key
    } else {
        prefix + seq!['.'] + key
    }
}

/// The key of item `i` of a sequence under `prefix`.
pub open spec fn item_key(prefix: Seq<char>, i: nat) -> Seq<char> {
    prefix + seq!['['] + numeral(i) + seq![']']
}

/// The leaves of `t` with their keys under `prefix`, first to last.
pub open spec fn leaves(t: Tree, prefix: Seq<char>) -> Seq<(Seq<char>, Seq<char>)>
    decreases t,
{
    match t {
        Tree::Mapping(m) => mapping_leaves(m, prefix),
        Tree::Sequence(s) => sequence_leaves(s, prefix),
        Tree::Tagged => Seq::empty(),
        _ => seq![(prefix, scalar_text(t).unwrap())],
    }
}

/// The leaves of the entries `m` of a mapping under `prefix`.
pub open spec fn mapping_leaves(m: Seq<(Seq<char>, Tree)>, prefix: Seq<char>) -> Seq<
    (Seq<char>, Seq<char>),
>
    decreases m,
{
    if m.len() == 0 {
        Seq::empty()
    } else {
        mapping_leaves(m.drop_last(), prefix) + leaves(m.last().1, child_key(prefix, m.last().0))
    }
}

/// The leaves of the items `s` of a sequence under `prefix`.
pub open spec fn sequence_leaves(s: Seq<Tree>, prefix: Seq<char>) -> Seq<(Seq<char>, Seq<char>)>
    decreases s,
{
    if s.len() == 0 {
        Seq::empty()
    } else {
        sequence_leaves(s.drop_last(), prefix) + leaves(
            s.last(),
            item_key(prefix, (s.len() - 1) as nat),
        )
    }
}

/// The flat entries of a tree: its leaves, each stored under its key in turn,
/// so that of two leaves with the same key the later one gives the value.
pub open spec fn flattened(t: Tree) -> Seq<(Seq<char>, Seq<char>)> {
    put_all(Seq::empty(), leaves(t, Seq::empty()))
}

/// Storing two runs of entries one after the other stores their concatenation.
pub proof fn lemma_put_all_concat<V>(
    s: Seq<(Seq<char>, V)>,
    a: Seq<(Seq<char>, V)>,
    b: Seq<(Seq<char>, V)>,
)
    ensures
        put_all(s, a + b) == put_all(put_all(s, a), b),
    decreases b.len(),
{
    if b.len() == 0 {
        assert(a + b =~= a);
    } else {
        assert((a + b).drop_last() =~= a + b.drop_last());
        lemma_put_all_concat(s, a, b.drop_last());
    }
}

/// Adds the flat entries of `value`, with `prefix` as the key of its root, to
/// `map`.
pub fn flatten_yaml(value: &ConfigValue, prefix: &str, map: &mut FlatMap)
    ensures
        final(map)@ == put_all(old(map)@, leaves(value@, prefix@)),
    decreases value,
{
    match value {
        ConfigValue::Mapping(m) => {
            let before = chars_of(prefix);
            let mut i: usize = 0;
            let ghost entries = value@->Mapping_0;
            proof {
                lemma_mapping_view(*value);
                assert(entries.take(0) =~= Seq::<(Seq<char>, Tree)>::empty());
            }
            while i < m.len()
                invariant
                    i <= m.len(),
                    before@ == prefix@,
                    decreases_to!(value => *m),
                    value@ == Tree::Mapping(entries),
                    entries.len() == m.len(),
                    forall|j: int| 0 <= j < m.len() ==> #[trigger] entries[j] == (m[j].0@, m[j].1@),
                    map@ == put_all(old(map)@, mapping_leaves(entries.take(i as int), prefix@)),
                decreases m.len() - i,
            {
                let mut key: Vec<char> = Vec::new();
                if before.len() > 0 {
                    push_all(&mut key, &before);
                    key.push('.');
                }
                let own = chars_of(m[i].0.as_str());
                push_all(&mut key, &own);
                proof {
                    assert(key@ =~= child_key(prefix@, m[i as int].0@));
                    assert(decreases_to!(*m => m[i as int]));
                    assert(entries.take(i + 1).drop_last() =~= entries.take(i as int));
                    assert(entries.take(i + 1).last() == entries[i as int]);
                    lemma_put_all_concat(
                        old(map)@,
                        mapping_leaves(entries.take(i as int), prefix@),
                        leaves(m[i as int].1@, key@),
                    );
                }
                let name = string_of(&key);
                flatten_yaml(&m[i].1, name.as_str(), map);
                i += 1;
            }
            proof {
                assert(entries.take(entries.len() as int) == entries);
            }
        },
        ConfigValue::Sequence(s) => {
            let before = chars_of(prefix);
            let mut i: usize = 0;
            let ghost items = value@->Sequence_0;
            proof {
                lemma_sequence_view(*value);
                assert(items.take(0) =~= Seq::<Tree>::empty());
            }
            while i < s.len()
                invariant
                    i <= s.len(),
                    before@ == prefix@,
                    decreases_to!(value => *s),
                    value@ == Tree::Sequence(items),
                    items.len() == s.len(),
                    forall|j: int| 0 <= j < s.len() ==> #[trigger] items[j] == s[j]@,
                    map@ == put_all(old(map)@, sequence_leaves(items.take(i as int), prefix@)),
                decreases s.len() - i,
            {
                let mut key: Vec<char> = Vec::new();
                push_all(&mut key, &before);
                key.push('[');
                let index = numeral_of(i as u128);
                push_all(&mut key, &index);
                key.push(']');
                proof {
                    assert(key@ =~= item_key(prefix@, i as nat));
                    assert(decreases_to!(*s => s[i as int]));
                    assert(items.take(i + 1).drop_last() =~= items.take(i as int));
                    assert(items.take(i + 1).last() == items[i as int]);
                    lemma_put_all_concat(
                        old(map)@,
                        sequence_leaves(items.take(i as int), prefix@),
                        leaves(s[i as int]@, key@),
                    );
                }
                let name = string_of(&key);
                flatten_yaml(&s[i], name.as_str(), map);
                i += 1;
            }
            proof {
                assert(items.take(items.len() as int) == items);
            }
        },
        ConfigValue::Null => {
            store_leaf(map, prefix, String::new());
        },
        ConfigValue::Bool(b) => {
            let mut text: Vec<char> = Vec::new();
            if *b {
                text.push('t');
                text.push('r');
                text.push('u');
                text.push('e');
            } else {
                text.push('f');
                text.push('a');
                text.push('l');
                text.push('s');
                text.push('e');
            }
            proof {
                assert(text@ =~= scalar_text(value@).unwrap());
            }
            store_leaf(map, prefix, string_of(&text));
        },
        ConfigValue::Number(Number::Integer(n)) => {
            let text = decimal_of(*n);
            store_leaf(map, prefix, string_of(&text));
        },
        ConfigValue::Number(Number::Float(t)) => {
            store_leaf(map, prefix, t.clone());
        },
        ConfigValue::String(s) => {
            store_leaf(map, prefix, s.clone());
        },
        ConfigValue::Tagged => {},
    }
}

/// Stores one leaf under its key.
fn store_leaf(map: &mut FlatMap, key: &str, text: String)
    ensures
        final(map)@ == put_all(old(map)@, seq![(key@, text@)]),
{
    proof {
        let one = seq![(key@, text@)];
        assert(one.drop_last() =~= Seq::<(Seq<char>, Seq<char>)>::empty());
        assert(one.last() == (key@, text@));
        assert(put_all(old(map)@, one.drop_last()) == old(map)@);
    }
    map.insert(string_of(&chars_of(key)), text);
}

/// The flat entries of a tree.
pub fn flatten(tree: &ConfigValue) -> (r: FlatMap)
    ensures
        r@ == flattened(tree@),
        distinct_keys(r@),
{
    let mut map = FlatMap::new();
    flatten_yaml(tree, "", &mut map);
    proof {
        reveal_strlit("");
        assert(""@ =~= Seq::<char>::empty());
    }
    let n = map.len();
    map
}

} // verus!
