//! Unflattening: from flat entries back to a tree of mappings.
//!
//! A key is split at each `.`; every piece but the last names a mapping on the
//! way, the last names the leaf. A piece such as `list[0]` is a key like any
//! other: no sequence is rebuilt. Where a value that is no mapping stands in
//! the way, a mapping takes its place.

use crate::flat::{
    FlatMap, distinct_keys, has_key, lemma_put_absent, lemma_put_entries, lemma_put_keys,
    lemma_put_present, put,
};
use crate::infer::{infer_chars, inferred};
use crate::text::{chars_of, split_chars, split_on, string_of};
use crate::value::{lemma_mapping_view, well_formed, well_formed_entries, ConfigValue, Tree};
use vstd::prelude::*;

verus! {

/// What the first entry of `s` with the key `k` holds, if there is one.
pub open spec fn value_at<V>(s: Seq<(Seq<char>, V)>, k: Seq<char>) -> Option<V>
    decreases s.len(),
{
    if s.len() == 0 {
        None
    } else if s[0].0 == k {
        Some(s[0].1)
    } else {
        value_at(s.drop_first(), k)
    }
}

/// The entries of the mapping that `m` holds under `k`; none where `m` holds
/// no mapping there.
pub open spec fn child_entries(m: Seq<(Seq<char>, Tree)>, k: Seq<char>) -> Seq<(Seq<char>, Tree)> {
    match value_at(m, k) {
        Some(Tree::Mapping(c)) => c,
        _ => Seq::empty(),
    }
}

/// The entries `m` of a mapping after the raw text `text` is stored at the
/// end of `path`, a path of at least one key.
pub open spec fn stored(m: Seq<(Seq<char>, Tree)>, path: Seq<Seq<char>>, text: Seq<char>) -> Seq<
    (Seq<char>, Tree),
>
    decreases path.len(),
{
    if path.len() == 0 {
        m
    } else if path.len() == 1 {
        put(m, path[0], inferred(text))
    } else {
        put(
            m,
            path[0],
            Tree::Mapping(stored(child_entries(m, path[0]), path.drop_first(), text)),
        )
    }
}

/// The entries of the root mapping after each flat entry is stored in turn.
pub open spec fn unflattened_entries(es: Seq<(Seq<char>, Seq<char>)>) -> Seq<(Seq<char>, Tree)>
    decreases es.len(),
{
    if es.len() == 0 {
        Seq::empty()
    } else {
        stored(unflattened_entries(es.drop_last()), split_on(es.last().0, '.'), es.last().1)
    }
}

/// The tree that the flat entries `es` give.
pub open spec fn unflattened(es: Seq<(Seq<char>, Seq<char>)>) -> Tree {
    Tree::Mapping(unflattened_entries(es))
}

/// Whether the tree holds no sequence.
pub open spec fn sequence_free(t: Tree) -> bool
    decreases t,
{
    match t {
        Tree::Mapping(m) => sequence_free_entries(m),
        Tree::Sequence(_) => false,
        _ => true,
    }
}

/// Whether no value of the entries holds a sequence.
pub open spec fn sequence_free_entries(m: Seq<(Seq<char>, Tree)>) -> bool
    decreases m,
{
    m.len() == 0 || (sequence_free_entries(m.drop_last()) && sequence_free(m.last().1))
}

/// The entries of a mapping value as contracts speak of them.
pub open spec fn entries_view(m: Vec<(String, ConfigValue)>) -> Seq<(Seq<char>, Tree)> {
    ConfigValue::Mapping(m)@->Mapping_0
}

/// What holds of each entry holds of all, and the other way round.
pub proof fn lemma_entries_each(m: Seq<(Seq<char>, Tree)>)
    ensures
        well_formed_entries(m) <==> forall|i: int| 0 <= i < m.len() ==> well_formed((#[trigger] m[i]).1),
        sequence_free_entries(m) <==> forall|i: int|
            0 <= i < m.len() ==> sequence_free((#[trigger] m[i]).1),
    decreases m.len(),
{
    if m.len() > 0 {
        let head = m.drop_last();
        lemma_entries_each(head);
        assert(forall|i: int| 0 <= i < head.len() ==> head[i] == m[i]);
        if forall|i: int| 0 <= i < m.len() ==> well_formed((#[trigger] m[i]).1) {
            assert forall|i: int| 0 <= i < head.len() implies well_formed((#[trigger] head[i]).1) by {
                assert(head[i] == m[i]);
            }
        }
        if forall|i: int| 0 <= i < m.len() ==> sequence_free((#[trigger] m[i]).1) {
            assert forall|i: int| 0 <= i < head.len() implies sequence_free(
                (#[trigger] head[i]).1,
            ) by {
                assert(head[i] == m[i]);
            }
        }
        if well_formed_entries(m) {
            assert forall|i: int| 0 <= i < m.len() implies well_formed((#[trigger] m[i]).1) by {
                if i < head.len() {
                    assert(head[i] == m[i]);
                }
            }
        }
        if sequence_free_entries(m) {
            assert forall|i: int| 0 <= i < m.len() implies sequence_free((#[trigger] m[i]).1) by {
                if i < head.len() {
                    assert(head[i] == m[i]);
                }
            }
        }
    }
}

/// The mapping found under a key is as sound as the entries it was found in.
pub proof fn lemma_child_entries(m: Seq<(Seq<char>, Tree)>, k: Seq<char>)
    requires
        distinct_keys(m),
        well_formed_entries(m),
        sequence_free_entries(m),
    ensures
        distinct_keys(child_entries(m, k)),
        well_formed_entries(child_entries(m, k)),
        sequence_free_entries(child_entries(m, k)),
    decreases m.len(),
{
    if m.len() > 0 {
        lemma_entries_each(m);
        if m[0].0 == k {
            assert(well_formed(m[0].1));
            assert(sequence_free(m[0].1));
        } else {
            let rest = m.drop_first();
            assert forall|i: int| 0 <= i < rest.len() implies well_formed((#[trigger] rest[i]).1)
                && sequence_free(rest[i].1) by {
                assert(rest[i] == m[i + 1]);
            }
            assert forall|i: int, j: int| 0 <= i < j < rest.len() implies (#[trigger] rest[i]).0 != (
            #[trigger] rest[j]).0 by {
                assert(rest[i] == m[i + 1] && rest[j] == m[j + 1]);
            }
            lemma_entries_each(rest);
            lemma_child_entries(rest, k);
        }
    }
}

/// Storing a text keeps a mapping sound: its keys stay distinct at every
/// depth, and it still holds no sequence.
pub proof fn lemma_stored_sound(m: Seq<(Seq<char>, Tree)>, path: Seq<Seq<char>>, text: Seq<char>)
    requires
        distinct_keys(m),
        well_formed_entries(m),
        sequence_free_entries(m),
    ensures
        distinct_keys(stored(m, path, text)),
        well_formed_entries(stored(m, path, text)),
        sequence_free_entries(stored(m, path, text)),
    decreases path.len(),
{
    if path.len() >= 1 {
        let v = if path.len() == 1 {
            inferred(text)
        } else {
            Tree::Mapping(stored(child_entries(m, path[0]), path.drop_first(), text))
        };
        if path.len() > 1 {
            lemma_child_entries(m, path[0]);
            lemma_stored_sound(child_entries(m, path[0]), path.drop_first(), text);
        }
        assert(well_formed(v) && sequence_free(v));
        let r = put(m, path[0], v);
        assert(r == stored(m, path, text));
        lemma_put_keys(m, path[0], v);
        lemma_put_entries(m, path[0], v);
        lemma_entries_each(m);
        assert forall|i: int| 0 <= i < r.len() implies well_formed((#[trigger] r[i]).1)
            && sequence_free(r[i].1) by {
            if r[i] != (path[0], v) {
                let j = choose|j: int| 0 <= j < m.len() && r[i] == m[j];
                assert(well_formed(m[j].1));
            }
        }
        lemma_entries_each(r);
    }
}

/// Unflattening gives a sound mapping without sequences.
pub proof fn lemma_unflattened_sound(es: Seq<(Seq<char>, Seq<char>)>)
    ensures
        distinct_keys(unflattened_entries(es)),
        well_formed_entries(unflattened_entries(es)),
        sequence_free_entries(unflattened_entries(es)),
        well_formed(unflattened(es)),
        sequence_free(unflattened(es)),
    decreases es.len(),
{
    if es.len() > 0 {
        lemma_unflattened_sound(es.drop_last());
        lemma_stored_sound(
            unflattened_entries(es.drop_last()),
            split_on(es.last().0, '.'),
            es.last().1,
        );
    }
}

/// The place of the first entry of `map` with the key `key`, or the number of
/// entries where there is none.
fn find_key(map: &Vec<(String, ConfigValue)>, key: &String) -> (r: usize)
    ensures
        r <= map.len(),
        forall|j: int| 0 <= j < r ==> (#[trigger] entries_view(*map)[j]).0 != key@,
        r < map.len() ==> entries_view(*map)[r as int].0 == key@,
        r == map.len() ==> !has_key(entries_view(*map), key@),
{
    proof {
        lemma_mapping_view(ConfigValue::Mapping(*map));
    }
    let mut i: usize = 0;
    while i < map.len()
        invariant
            i <= map.len(),
            entries_view(*map).len() == map.len(),
            forall|j: int|
                0 <= j < map.len() ==> #[trigger] entries_view(*map)[j] == (map[j].0@, map[j].1@),
            forall|j: int| 0 <= j < i ==> (#[trigger] entries_view(*map)[j]).0 != key@,
        decreases map.len() - i,
    {
        if map[i].0 == *key {
            return i;
        }
        i += 1;
    }
    i
}

/// What `value_at` finds is the value of the first entry with the key.
proof fn lemma_value_at<V>(s: Seq<(Seq<char>, V)>, k: Seq<char>, i: int)
    requires
        0 <= i <= s.len(),
        forall|j: int| 0 <= j < i ==> (#[trigger] s[j]).0 != k,
        i < s.len() ==> s[i].0 == k,
    ensures
        value_at(s, k) == if i < s.len() {
            Some(s[i].1)
        } else {
            None
        },
    decreases s.len(),
{
    if s.len() > 0 && i > 0 {
        assert(s[0].0 != k);
        let rest = s.drop_first();
        assert forall|j: int| 0 <= j < i - 1 implies (#[trigger] rest[j]).0 != k by {
            assert(rest[j] == s[j + 1]);
        }
        if i < s.len() {
            assert(rest[i - 1] == s[i]);
        }
        lemma_value_at(rest, k, i - 1);
    }
}

/// Stores `value` in `map` under `key`: a key that is there keeps its place
/// and takes the new value, a new key comes last.
pub fn put_value(map: &mut Vec<(String, ConfigValue)>, key: String, value: ConfigValue)
    ensures
        entries_view(*final(map)) == put(entries_view(*old(map)), key@, value@),
{
    let ghost before = entries_view(*map);
    let at = find_key(map, &key);
    proof {
        lemma_mapping_view(ConfigValue::Mapping(*map));
    }
    if at < map.len() {
        proof {
            lemma_put_present(before, at as int, value@);
        }
        map.remove(at);
        map.insert(at, (key, value));
    } else {
        proof {
            lemma_put_absent(before, key@, value@);
        }
        map.push((key, value));
    }
    proof {
        lemma_mapping_view(ConfigValue::Mapping(*map));
        assert(entries_view(*map) =~= put(before, key@, value@));
    }
}

/// Takes the entries of the mapping under `key` out of `map`; none where `map`
/// holds no mapping there.
fn take_child(map: &mut Vec<(String, ConfigValue)>, key: &String) -> (r: Vec<(String, ConfigValue)>)
    ensures
        entries_view(r) == child_entries(entries_view(*old(map)), key@),
        forall|v: Tree| put(entries_view(*final(map)), key@, v) == put(entries_view(*old(map)), key@, v),
{
    let ghost before = entries_view(*map);
    let at = find_key(map, key);
    proof {
        lemma_mapping_view(ConfigValue::Mapping(*map));
        lemma_value_at(before, key@, at as int);
    }
    let mut nested: Vec<(String, ConfigValue)> = Vec::new();
    if at < map.len() {
        let (name, old_value) = map.remove(at);
        match old_value {
            ConfigValue::Mapping(c) => {
                proof {
                    lemma_mapping_view(old_value);
                }
                nested = c;
            },
            _ => {},
        }
        map.insert(at, (name, ConfigValue::Null));
        proof {
            lemma_mapping_view(ConfigValue::Mapping(*map));
            let after = entries_view(*map);
            assert(after =~= before.update(at as int, (key@, Tree::Null)));
            assert forall|v: Tree| put(after, key@, v) == put(before, key@, v) by {
                lemma_put_present(before, at as int, v);
                lemma_put_present(after, at as int, v);
                assert(before.update(at as int, (key@, v)) =~= after.update(at as int, (key@, v)));
            }
        }
    }
    proof {
        lemma_mapping_view(ConfigValue::Mapping(nested));
        assert(entries_view(nested) =~= child_entries(before, key@));
    }
    nested
}

/// Stores `text` in `map` at the end of the path `path[from..]`.
fn store_at(map: &mut Vec<(String, ConfigValue)>, path: &Vec<Vec<char>>, from: usize, text: &Vec<char>)
    requires
        from < path.len(),
    ensures
        entries_view(*final(map)) == stored(
            entries_view(*old(map)),
            path@.map_values(|p: Vec<char>| p@).skip(from as int),
            text@,
        ),
    decreases path.len() - from,
{
    let ghost rest = path@.map_values(|p: Vec<char>| p@).skip(from as int);
    let key = string_of(&path[from]);
    proof {
        assert(rest[0] == key@);
        assert(rest.drop_first() == path@.map_values(|p: Vec<char>| p@).skip(from + 1));
    }
    if from + 1 == path.len() {
        put_value(map, key, infer_chars(text));
    } else {
        let mut nested = take_child(map, &key);
        store_at(&mut nested, path, from + 1, text);
        let ghost child = entries_view(nested);
        let node = ConfigValue::Mapping(nested);
        proof {
            assert(node@ == Tree::Mapping(child));
        }
        put_value(map, key, node);
    }
}

/// Stores the raw text `value` in `map` under the dotted key `key`.
pub fn insert_value(map: &mut Vec<(String, ConfigValue)>, key: &str, value: &str)
    ensures
        entries_view(*final(map)) == stored(
            entries_view(*old(map)),
            split_on(key@, '.'),
            value@,
        ),
{
    let path = split_chars(&chars_of(key), '.');
    let text = chars_of(value);
    proof {
        assert(path@.map_values(|p: Vec<char>| p@).skip(0) == path@.map_values(|p: Vec<char>| p@));
    }
    store_at(map, &path, 0, &text);
}

/// The tree that flat entries give: a mapping, whose keys are distinct at
/// every depth and which holds no sequence.
pub fn unflatten_properties(entries: &FlatMap) -> (r: ConfigValue)
    ensures
        r@ == unflattened(entries@),
        well_formed(r@),
        sequence_free(r@),
{
    let mut root: Vec<(String, ConfigValue)> = Vec::new();
    let n = entries.len();
    let mut i: usize = 0;
    proof {
        lemma_mapping_view(ConfigValue::Mapping(root));
        assert(entries@.take(0) =~= Seq::<(Seq<char>, Seq<char>)>::empty());
        assert(entries_view(root) =~= unflattened_entries(entries@.take(0)));
    }
    while i < n
        invariant
            i <= n,
            n == entries@.len(),
            entries_view(root) == unflattened_entries(entries@.take(i as int)),
        decreases n - i,
    {
        let e = entries.entry(i);
        proof {
            assert(entries@.take(i + 1).drop_last() =~= entries@.take(i as int));
            assert(entries@.take(i + 1).last() == e@);
        }
        insert_value(&mut root, e.key.as_str(), e.value.as_str());
        i += 1;
    }
    proof {
        assert(entries@.take(entries@.len() as int) == entries@);
        lemma_unflattened_sound(entries@);
    }
    ConfigValue::Mapping(root)
}

} // verus!
