//! Between the value model and the values of `serde_yaml`.
//!
//! Reading keeps what the model can hold: the entries of a mapping whose key
//! is a text, and of a tagged node only that it is one. Writing asks
//! `serde_yaml` for each number; a tree with a tagged node cannot be written.

use crate::flat::{distinct_keys, lemma_put_entries, lemma_put_keys, put, put_all};
use crate::infer::{float_literal, is_float_literal, is_infinity_word, is_nan_word, without_sign};
use crate::numeral::{all_digits, decimal_of, decimal_text, integer_within, read_integer};
use crate::text::{chars_of, push_all, string_of};
use crate::tree_laws::{comes_back, entries_come_back, lemma_unflattened_shape};
use crate::unflatten::{
    entries_view, lemma_entries_each, put_value, unflattened, unflattened_entries,
};
use crate::value::{
    lemma_mapping_view, lemma_sequence_view, well_formed, well_formed_entries, well_formed_items,
    ConfigValue, Number, NumberView, Tree,
};
use crate::yaml::{
    yaml_node, yaml_number, yaml_number_text, yaml_of_parts, yaml_shape, Node, YamlParts,
    YamlShape,
};
use vstd::prelude::*;

verus! {

/// The number that the text `t` of a number of the tree format stands for: an
/// integer where it is an integer literal from `i64::MIN` to `u64::MAX`, else
/// a decimal with that text.
pub open spec fn number_of_text(t: Seq<char>) -> NumberView {
    match integer_within(t, i64::MIN as int, u64::MAX as int) {
        Some(n) => NumberView::Integer(n),
        None => NumberView::Float(t),
    }
}

/// The tree of the model that a tree of `serde_yaml` gives.
pub open spec fn tree_of_node(n: Node) -> Tree
    decreases n,
{
    match n {
        Node::Null => Tree::Null,
        Node::Bool(b) => Tree::Bool(b),
        Node::Number(t) => Tree::Number(number_of_text(t)),
        Node::String(s) => Tree::String(s),
        Node::Sequence(items) => Tree::Sequence(items_of_nodes(items)),
        Node::Mapping(entries) => Tree::Mapping(entries_of_nodes(entries)),
        Node::Tagged(_, _) => Tree::Tagged,
    }
}

/// The items of the model that the items of a sequence give.
pub open spec fn items_of_nodes(items: Seq<Node>) -> Seq<Tree>
    decreases items,
{
    if items.len() == 0 {
        Seq::empty()
    } else {
        items_of_nodes(items.drop_last()).push(tree_of_node(items.last()))
    }
}

/// The entries of the model that the entries of a mapping give: each entry
/// whose key is a text, stored in turn; the others are left out.
pub open spec fn entries_of_nodes(entries: Seq<(Node, Node)>) -> Seq<(Seq<char>, Tree)>
    decreases entries,
{
    if entries.len() == 0 {
        Seq::empty()
    } else {
        let before = entries_of_nodes(entries.drop_last());
        match entries.last().0 {
            Node::String(k) => put(before, k, tree_of_node(entries.last().1)),
            _ => before,
        }
    }
}

/// The tree of the model that a tree of `serde_yaml` gives has no key twice
/// in a mapping.
pub proof fn lemma_tree_of_node_well_formed(n: Node)
    ensures
        well_formed(tree_of_node(n)),
    decreases n, 1nat,
{
    match n {
        Node::Sequence(items) => {
            lemma_items_of_nodes_well_formed(items);
        },
        Node::Mapping(entries) => {
            lemma_entries_of_nodes_well_formed(entries);
        },
        _ => {},
    }
}

/// The items that the items of a sequence give are well formed.
pub proof fn lemma_items_of_nodes_well_formed(items: Seq<Node>)
    ensures
        well_formed_items(items_of_nodes(items)),
    decreases items, 0nat,
{
    if items.len() > 0 {
        lemma_items_of_nodes_well_formed(items.drop_last());
        lemma_tree_of_node_well_formed(items.last());
        let r = items_of_nodes(items);
        assert(r.drop_last() =~= items_of_nodes(items.drop_last()));
    }
}

/// The entries that the entries of a mapping give have distinct keys and well
/// formed values.
pub proof fn lemma_entries_of_nodes_well_formed(entries: Seq<(Node, Node)>)
    ensures
        distinct_keys(entries_of_nodes(entries)),
        well_formed_entries(entries_of_nodes(entries)),
    decreases entries, 0nat,
{
    if entries.len() > 0 {
        let before = entries_of_nodes(entries.drop_last());
        lemma_entries_of_nodes_well_formed(entries.drop_last());
        match entries.last().0 {
            Node::String(k) => {
                let x = tree_of_node(entries.last().1);
                lemma_tree_of_node_well_formed(entries.last().1);
                let r = put(before, k, x);
                lemma_put_keys(before, k, x);
                lemma_put_entries(before, k, x);
                lemma_entries_each(before);
                assert forall|i: int| 0 <= i < r.len() implies well_formed((#[trigger] r[i]).1) by {
                    if r[i] != (k, x) {
                        let j = choose|j: int| 0 <= j < before.len() && r[i] == before[j];
                        assert(well_formed(before[j].1));
                    }
                }
                lemma_entries_each(r);
            },
            _ => {},
        }
    }
}

/// Reads a value of `serde_yaml` into the model. No mapping of the result has
/// a key twice.
pub fn value_of_yaml(v: &serde_yaml::Value) -> (r: ConfigValue)
    ensures
        r@ == tree_of_node(yaml_node(*v)),
        well_formed(r@),
    decreases yaml_node(*v),
{
    let ghost node = yaml_node(*v);
    proof {
        lemma_tree_of_node_well_formed(node);
    }
    match yaml_shape(v) {
        YamlShape::Null => ConfigValue::Null,
        YamlShape::Bool(b) => ConfigValue::Bool(b),
        YamlShape::Number(text) => {
            match read_integer(&chars_of(text.as_str())) {
                Some(n) => ConfigValue::Number(Number::Integer(n)),
                None => ConfigValue::Number(Number::Float(text)),
            }
        },
        YamlShape::String(s) => ConfigValue::String(s),
        YamlShape::Sequence(items) => {
            let ghost nodes = node->Sequence_0;
            let mut out: Vec<ConfigValue> = Vec::new();
            let mut i: usize = 0;
            proof {
                lemma_sequence_view(ConfigValue::Sequence(out));
                assert(nodes.take(0) =~= Seq::<Node>::empty());
                assert(ConfigValue::Sequence(out)@->Sequence_0 =~= items_of_nodes(nodes.take(0)));
            }
            while i < items.len()
                invariant
                    i <= items.len(),
                    node == yaml_node(*v),
                    node == Node::Sequence(nodes),
                    decreases_to!(node => nodes),
                    nodes == items@.map_values(|x: serde_yaml::Value| yaml_node(x)),
                    ConfigValue::Sequence(out)@->Sequence_0 == items_of_nodes(nodes.take(i as int)),
                decreases items.len() - i,
            {
                proof {
                    assert(nodes[i as int] == yaml_node(items[i as int]));
                    assert(decreases_to!(nodes => nodes[i as int]));
                    assert(decreases_to!(node => yaml_node(items[i as int])));
                    assert(nodes.take(i + 1).drop_last() =~= nodes.take(i as int));
                    assert(nodes.take(i + 1).last() == nodes[i as int]);
                }
                let ghost before = ConfigValue::Sequence(out)@->Sequence_0;
                proof {
                    lemma_sequence_view(ConfigValue::Sequence(out));
                }
                let item = value_of_yaml(&items[i]);
                out.push(item);
                proof {
                    lemma_sequence_view(ConfigValue::Sequence(out));
                    assert(ConfigValue::Sequence(out)@->Sequence_0 =~= before.push(item@));
                }
                i += 1;
            }
            proof {
                assert(nodes.take(nodes.len() as int) == nodes);
            }
            ConfigValue::Sequence(out)
        },
        YamlShape::Mapping(entries) => {
            let ghost nodes = node->Mapping_0;
            let mut out: Vec<(String, ConfigValue)> = Vec::new();
            let mut i: usize = 0;
            proof {
                lemma_mapping_view(ConfigValue::Mapping(out));
                assert(nodes.take(0) =~= Seq::<(Node, Node)>::empty());
                assert(entries_view(out) =~= entries_of_nodes(nodes.take(0)));
            }
            while i < entries.len()
                invariant
                    i <= entries.len(),
                    node == yaml_node(*v),
                    node == Node::Mapping(nodes),
                    decreases_to!(node => nodes),
                    nodes == entries@.map_values(
                        |e: (&serde_yaml::Value, &serde_yaml::Value)|
                            (yaml_node(*e.0), yaml_node(*e.1)),
                    ),
                    entries_view(out) == entries_of_nodes(nodes.take(i as int)),
                decreases entries.len() - i,
            {
                proof {
                    assert(nodes[i as int] == (
                        yaml_node(*entries[i as int].0),
                        yaml_node(*entries[i as int].1),
                    ));
                    assert(decreases_to!(nodes => nodes[i as int]));
                    assert(decreases_to!(nodes[i as int] => nodes[i as int].1));
                    assert(decreases_to!(node => yaml_node(*entries[i as int].1)));
                    assert(nodes.take(i + 1).drop_last() =~= nodes.take(i as int));
                    assert(nodes.take(i + 1).last() == nodes[i as int]);
                }
                match yaml_shape(entries[i].0) {
                    YamlShape::String(k) => {
                        let item = value_of_yaml(entries[i].1);
                        put_value(&mut out, k, item);
                    },
                    _ => {},
                }
                i += 1;
            }
            proof {
                assert(nodes.take(nodes.len() as int) == nodes);
            }
            ConfigValue::Mapping(out)
        },
        YamlShape::Tagged => ConfigValue::Tagged,
    }
}

/// Why a tree cannot be written in the tree format.
#[derive(Debug, Clone, PartialEq, Eq)]
pub enum WriteError {
    /// The tree holds a tagged node.
    Tagged,
    /// The tree holds a number, with this text, that the format cannot hold.
    Number(String),
}

/// A `WriteError` as contracts speak of it.
pub enum WriteErrorView {
    Tagged,
    Number(Seq<char>),
}

impl View for WriteError {
    type V = WriteErrorView;

    open spec fn view(&self) -> WriteErrorView {
        match self {
            WriteError::Tagged => WriteErrorView::Tagged,
            WriteError::Number(t) => WriteErrorView::Number(t@),
        }
    }
}

/// How the tree format spells infinity with the sign of the decimal `t`.
pub open spec fn infinity_spelling(t: Seq<char>) -> Seq<char> {
    if t.len() > 0 && t[0] == '-' {
        seq!['-', '.', 'i', 'n', 'f']
    } else {
        seq!['.', 'i', 'n', 'f']
    }
}

/// How the tree format spells the decimal `t`: `.nan` for `nan`, `.inf` or
/// `-.inf` for `inf` and `infinity`, digits alone with `.0` behind them so
/// that they read as a decimal, anything else as it is.
pub open spec fn tree_spelling(t: Seq<char>) -> Seq<char> {
    let body = without_sign(t);
    if is_nan_word(body) {
        seq!['.', 'n', 'a', 'n']
    } else if is_infinity_word(body) {
        infinity_spelling(t)
    } else if body.len() > 0 && all_digits(body) {
        t + seq!['.', '0']
    } else {
        t
    }
}

/// The text of the number of `serde_yaml` that stands for `n`, if there is
/// one. A decimal that `serde_yaml` does not read although a decimal can be
/// read from it is too large, and stands for infinity.
pub open spec fn number_node(n: NumberView) -> Option<Seq<char>> {
    match n {
        NumberView::Integer(i) => yaml_number_text(decimal_text(i)),
        NumberView::Float(t) => match yaml_number_text(tree_spelling(t)) {
            Some(x) => Some(x),
            None => if is_float_literal(t) {
                yaml_number_text(infinity_spelling(t))
            } else {
                None
            },
        },
    }
}

/// The text by which an error names the number `n`.
pub open spec fn number_name(n: NumberView) -> Seq<char> {
    match n {
        NumberView::Integer(i) => decimal_text(i),
        NumberView::Float(t) => t,
    }
}

/// The tree of `serde_yaml` that stands for a tree of the model, or why there
/// is none: the first tagged node or number without a text, first to last.
pub open spec fn node_of_tree(t: Tree) -> Result<Node, WriteErrorView>
    decreases t,
{
    match t {
        Tree::Null => Ok(Node::Null),
        Tree::Bool(b) => Ok(Node::Bool(b)),
        Tree::Number(n) => match number_node(n) {
            Some(x) => Ok(Node::Number(x)),
            None => Err(WriteErrorView::Number(number_name(n))),
        },
        Tree::String(s) => Ok(Node::String(s)),
        Tree::Sequence(items) => match nodes_of_items(items) {
            Ok(nodes) => Ok(Node::Sequence(nodes)),
            Err(e) => Err(e),
        },
        Tree::Mapping(entries) => match nodes_of_entries(entries) {
            Ok(nodes) => Ok(
                Node::Mapping(
                    put_all(Seq::empty(), nodes).map_values(
                        |e: (Seq<char>, Node)| (Node::String(e.0), e.1),
                    ),
                ),
            ),
            Err(e) => Err(e),
        },
        Tree::Tagged => Err(WriteErrorView::Tagged),
    }
}

/// The trees of `serde_yaml` that stand for the items of a sequence.
pub open spec fn nodes_of_items(items: Seq<Tree>) -> Result<Seq<Node>, WriteErrorView>
    decreases items,
{
    if items.len() == 0 {
        Ok(Seq::empty())
    } else {
        match nodes_of_items(items.drop_last()) {
            Err(e) => Err(e),
            Ok(nodes) => match node_of_tree(items.last()) {
                Err(e) => Err(e),
                Ok(n) => Ok(nodes.push(n)),
            },
        }
    }
}

/// The keys of a mapping with the trees of `serde_yaml` that stand for their
/// values.
pub open spec fn nodes_of_entries(entries: Seq<(Seq<char>, Tree)>) -> Result<
    Seq<(Seq<char>, Node)>,
    WriteErrorView,
>
    decreases entries,
{
    if entries.len() == 0 {
        Ok(Seq::empty())
    } else {
        match nodes_of_entries(entries.drop_last()) {
            Err(e) => Err(e),
            Ok(nodes) => match node_of_tree(entries.last().1) {
                Err(e) => Err(e),
                Ok(n) => Ok(nodes.push((entries.last().0, n))),
            },
        }
    }
}

/// An error in the first items is the error of all of them.
proof fn lemma_items_error(items: Seq<Tree>, k: int)
    requires
        0 <= k <= items.len(),
        nodes_of_items(items.take(k)) is Err,
    ensures
        nodes_of_items(items) == nodes_of_items(items.take(k)),
    decreases items.len() - k,
{
    if k < items.len() {
        assert(items.drop_last().take(k) == items.take(k));
        lemma_items_error(items.drop_last(), k);
    } else {
        assert(items.take(k) == items);
    }
}

/// An error in the first entries is the error of all of them.
proof fn lemma_entries_error(entries: Seq<(Seq<char>, Tree)>, k: int)
    requires
        0 <= k <= entries.len(),
        nodes_of_entries(entries.take(k)) is Err,
    ensures
        nodes_of_entries(entries) == nodes_of_entries(entries.take(k)),
    decreases entries.len() - k,
{
    if k < entries.len() {
        assert(entries.drop_last().take(k) == entries.take(k));
        lemma_entries_error(entries.drop_last(), k);
    } else {
        assert(entries.take(k) == entries);
    }
}

/// The spelling of the tree format for the decimal `t`.
pub fn spell_for_tree(t: &str) -> (r: String)
    ensures
        r@ == tree_spelling(t@),
{
    let v = chars_of(t);
    let mut from: usize = 0;
    if v.len() > 0 && (v[0] == '+' || v[0] == '-') {
        from = 1;
    }
    proof {
        assert(v@.skip(0) == v@);
        assert(without_sign(v@) == v@.skip(from as int));
    }
    let mut out: Vec<char> = Vec::new();
    if crate::infer::nan_word(&v, from) {
        out.push('.');
        out.push('n');
        out.push('a');
        out.push('n');
        proof {
            assert(out@ =~= seq!['.', 'n', 'a', 'n']);
        }
    } else if crate::infer::infinity_word(&v, from) {
        if v.len() > 0 && v[0] == '-' {
            out.push('-');
        }
        out.push('.');
        out.push('i');
        out.push('n');
        out.push('f');
        proof {
            assert(out@ =~= infinity_spelling(v@));
        }
    } else {
        let mut i: usize = from;
        while i < v.len() && crate::numeral::digit(v[i])
            invariant
                from <= i <= v.len(),
                forall|j: int| from <= j < i ==> crate::numeral::is_digit(#[trigger] v@[j]),
            decreases v.len() - i,
        {
            i += 1;
        }
        push_all(&mut out, &v);
        let ghost body = v@.skip(from as int);
        if i == v.len() && i > from {
            proof {
                assert forall|j: int| 0 <= j < body.len() implies crate::numeral::is_digit(
                    #[trigger] body[j],
                ) by {
                    assert(body[j] == v@[j + from]);
                }
            }
            out.push('.');
            out.push('0');
            proof {
                assert(out@ =~= v@ + seq!['.', '0']);
            }
        } else {
            proof {
                if i < v.len() {
                    assert(body[i - from] == v@[i as int]);
                    assert(!all_digits(body));
                }
                assert(out@ =~= v@);
            }
        }
    }
    string_of(&out)
}

/// The value of `serde_yaml` that stands for the number `n`.
fn yaml_of_number(n: &Number) -> (r: Option<serde_yaml::Value>)
    ensures
        match r {
            Some(v) => number_node(n@) == Some(yaml_node(v)->Number_0) && yaml_node(v) is Number,
            None => number_node(n@) is None,
        },
{
    match n {
        Number::Integer(i) => {
            let text = string_of(&decimal_of(*i));
            yaml_number(text.as_str())
        },
        Number::Float(t) => {
            let spelled = spell_for_tree(t.as_str());
            match yaml_number(spelled.as_str()) {
                Some(v) => Some(v),
                None => {
                    let v = chars_of(t.as_str());
                    if float_literal(&v) {
                        let mut inf: Vec<char> = Vec::new();
                        if v.len() > 0 && v[0] == '-' {
                            inf.push('-');
                        }
                        inf.push('.');
                        inf.push('i');
                        inf.push('n');
                        inf.push('f');
                        proof {
                            assert(inf@ =~= infinity_spelling(t@));
                        }
                        yaml_number(string_of(&inf).as_str())
                    } else {
                        None
                    }
                },
            }
        },
    }
}

/// The text by which an error names the number `n`.
fn name_of_number(n: &Number) -> (r: String)
    ensures
        r@ == number_name(n@),
{
    match n {
        Number::Integer(i) => string_of(&decimal_of(*i)),
        Number::Float(t) => t.clone(),
    }
}

/// Makes the value of `serde_yaml` that stands for a tree of the model.
pub fn yaml_of_value(value: &ConfigValue) -> (r: Result<serde_yaml::Value, WriteError>)
    ensures
        match r {
            Ok(v) => node_of_tree(value@) == Ok::<Node, WriteErrorView>(yaml_node(v)),
            Err(e) => node_of_tree(value@) == Err::<Node, WriteErrorView>(e@),
        },
    decreases value,
{
    match value {
        ConfigValue::Null => Ok(yaml_of_parts(YamlParts::Null)),
        ConfigValue::Bool(b) => Ok(yaml_of_parts(YamlParts::Bool(*b))),
        ConfigValue::Number(n) => match yaml_of_number(n) {
            Some(v) => Ok(v),
            None => Err(WriteError::Number(name_of_number(n))),
        },
        ConfigValue::String(s) => Ok(yaml_of_parts(YamlParts::String(s.clone()))),
        ConfigValue::Sequence(items) => {
            let ghost trees = value@->Sequence_0;
            let mut out: Vec<serde_yaml::Value> = Vec::new();
            let mut i: usize = 0;
            proof {
                lemma_sequence_view(*value);
                assert(trees.take(0) =~= Seq::<Tree>::empty());
                assert(out@.map_values(|x: serde_yaml::Value| yaml_node(x)) =~= Seq::<
                    Node,
                >::empty());
            }
            while i < items.len()
                invariant
                    i <= items.len(),
                    decreases_to!(value => *items),
                    value@ == Tree::Sequence(trees),
                    trees.len() == items.len(),
                    forall|j: int| 0 <= j < items.len() ==> #[trigger] trees[j] == items[j]@,
                    nodes_of_items(trees.take(i as int)) == Ok::<Seq<Node>, WriteErrorView>(
                        out@.map_values(|x: serde_yaml::Value| yaml_node(x)),
                    ),
                decreases items.len() - i,
            {
                proof {
                    assert(decreases_to!(*items => items[i as int]));
                    assert(trees.take(i + 1).drop_last() =~= trees.take(i as int));
                    assert(trees.take(i + 1).last() == trees[i as int]);
                }
                let ghost before = out@.map_values(|x: serde_yaml::Value| yaml_node(x));
                match yaml_of_value(&items[i]) {
                    Ok(v) => {
                        out.push(v);
                        proof {
                            assert(out@.map_values(|x: serde_yaml::Value| yaml_node(x))
                                =~= before.push(yaml_node(v)));
                        }
                    },
                    Err(e) => {
                        proof {
                            lemma_items_error(trees, i + 1);
                        }
                        return Err(e);
                    },
                }
                i += 1;
            }
            proof {
                assert(trees.take(trees.len() as int) == trees);
            }
            Ok(yaml_of_parts(YamlParts::Sequence(out)))
        },
        ConfigValue::Mapping(entries) => {
            let ghost trees = value@->Mapping_0;
            let mut out: Vec<(String, serde_yaml::Value)> = Vec::new();
            let mut i: usize = 0;
            proof {
                lemma_mapping_view(*value);
                assert(trees.take(0) =~= Seq::<(Seq<char>, Tree)>::empty());
                assert(out@.map_values(|e: (String, serde_yaml::Value)| (e.0@, yaml_node(e.1)))
                    =~= Seq::<(Seq<char>, Node)>::empty());
            }
            while i < entries.len()
                invariant
                    i <= entries.len(),
                    decreases_to!(value => *entries),
                    value@ == Tree::Mapping(trees),
                    trees.len() == entries.len(),
                    forall|j: int|
                        0 <= j < entries.len() ==> #[trigger] trees[j] == (
                            entries[j].0@,
                            entries[j].1@,
                        ),
                    nodes_of_entries(trees.take(i as int)) == Ok::<
                        Seq<(Seq<char>, Node)>,
                        WriteErrorView,
                    >(out@.map_values(|e: (String, serde_yaml::Value)| (e.0@, yaml_node(e.1)))),
                decreases entries.len() - i,
            {
                proof {
                    assert(decreases_to!(*entries => entries[i as int]));
                    assert(trees.take(i + 1).drop_last() =~= trees.take(i as int));
                    assert(trees.take(i + 1).last() == trees[i as int]);
                }
                let ghost before = out@.map_values(
                    |e: (String, serde_yaml::Value)| (e.0@, yaml_node(e.1)),
                );
                match yaml_of_value(&entries[i].1) {
                    Ok(v) => {
                        out.push((entries[i].0.clone(), v));
                        proof {
                            assert(out@.map_values(
                                |e: (String, serde_yaml::Value)| (e.0@, yaml_node(e.1)),
                            ) =~= before.push((entries[i as int].0@, yaml_node(v))));
                        }
                    },
                    Err(e) => {
                        proof {
                            lemma_entries_error(trees, i + 1);
                        }
                        return Err(e);
                    },
                }
                i += 1;
            }
            proof {
                assert(trees.take(trees.len() as int) == trees);
            }
            Ok(yaml_of_parts(YamlParts::Mapping(out)))
        },
        ConfigValue::Tagged => Err(WriteError::Tagged),
    }
}

/// A tree of leaves and mappings can be written but for its numbers: no
/// tagged node stands in the way.
pub proof fn lemma_written_but_for_numbers(w: Tree)
    requires
        comes_back(w),
    ensures
        !(node_of_tree(w) matches Err(WriteErrorView::Tagged)),
    decreases w, 1nat,
{
    match w {
        Tree::Mapping(m) => {
            lemma_entries_written_but_for_numbers(m);
        },
        _ => {},
    }
}

/// The entries of a mapping of leaves and mappings can be written but for
/// their numbers.
pub proof fn lemma_entries_written_but_for_numbers(m: Seq<(Seq<char>, Tree)>)
    requires
        entries_come_back(m),
    ensures
        !(nodes_of_entries(m) matches Err(WriteErrorView::Tagged)),
    decreases m, 0nat,
{
    if m.len() > 0 {
        lemma_entries_written_but_for_numbers(m.drop_last());
        lemma_written_but_for_numbers(m.last().1);
    }
}

/// The tree that flat entries give can be written but for its numbers: where
/// it cannot be written, `serde_yaml` reads no number from the text of one of
/// them.
pub proof fn lemma_unflattened_written_but_for_numbers(es: Seq<(Seq<char>, Seq<char>)>)
    ensures
        node_of_tree(unflattened(es)) is Ok || node_of_tree(unflattened(es)) matches Err(
            WriteErrorView::Number(_),
        ),
{
    lemma_unflattened_shape(es);
    lemma_entries_written_but_for_numbers(unflattened_entries(es));
}

} // verus!
