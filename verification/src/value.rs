//! The value model: what a configuration tree holds.

use crate::flat::distinct_keys;
use vstd::prelude::*;

verus! {

/// A number: an integer, or a decimal kept as the text that writes it.
#[derive(Debug, Clone, PartialEq, Eq)]
pub enum Number {
    /// An integer.
    Integer(i128),
    /// A decimal, as its text.
    Float(String),
}

/// A number as contracts speak of it.
pub enum NumberView {
    Integer(int),
    Float(Seq<char>),
}

impl View for Number {
    type V = NumberView;

    open spec fn view(&self) -> NumberView {
        match self {
            Number::Integer(n) => NumberView::Integer(*n as int),
            Number::Float(t) => NumberView::Float(t@),
        }
    }
}

/// A configuration tree.
#[derive(Debug, PartialEq, Eq)]
pub enum ConfigValue {
    /// Nothing.
    Null,
    /// A truth value.
    Bool(bool),
    /// A number.
    Number(Number),
    /// A text.
    String(String),
    /// Keys with their values, in the order in which they were declared.
    Mapping(Vec<(String, ConfigValue)>),
    /// A list of values.
    Sequence(Vec<ConfigValue>),
    /// A node of a kind that has no flat form, such as a tagged node of the
    /// tree format.
    Tagged,
}

/// A configuration tree as contracts speak of it.
pub enum Tree {
    Null,
    Bool(bool),
    Number(NumberView),
    String(Seq<char>),
    Mapping(Seq<(Seq<char>, Tree)>),
    Sequence(Seq<Tree>),
    Tagged,
}

impl View for ConfigValue {
    type V = Tree;

    open spec fn view(&self) -> Tree {
        tree_of(*self)
    }
}

/// The tree that a value holds.
pub open spec fn tree_of(v: ConfigValue) -> Tree
    decreases v,
{
    match v {
        ConfigValue::Null => Tree::Null,
        ConfigValue::Bool(b) => Tree::Bool(b),
        ConfigValue::Number(n) => Tree::Number(n@),
        ConfigValue::String(s) => Tree::String(s@),
        ConfigValue::Mapping(m) => Tree::Mapping(
            Seq::new(
                m@.len(),
                |i: int|
                    if 0 <= i < m@.len() {
                        (m@[i].0@, tree_of(m@[i].1))
                    } else {
                        (Seq::empty(), Tree::Null)
                    },
            ),
        ),
        ConfigValue::Sequence(s) => Tree::Sequence(
            Seq::new(
                s@.len(),
                |i: int|
                    if 0 <= i < s@.len() {
                        tree_of(s@[i])
                    } else {
                        Tree::Null
                    },
            ),
        ),
        ConfigValue::Tagged => Tree::Tagged,
    }
}

/// The view of a mapping has an entry for each of its entries.
pub proof fn lemma_mapping_view(v: ConfigValue)
    requires
        v is Mapping,
    ensures
        v@ is Mapping,
        v@->Mapping_0.len() == v->Mapping_0@.len(),
        forall|i: int|
            0 <= i < v->Mapping_0@.len() ==> #[trigger] v@->Mapping_0[i] == (
                v->Mapping_0@[i].0@,
                v->Mapping_0@[i].1@,
            ),
{
}

/// The view of a sequence has an item for each of its items.
pub proof fn lemma_sequence_view(v: ConfigValue)
    requires
        v is Sequence,
    ensures
        v@ is Sequence,
        v@->Sequence_0.len() == v->Sequence_0@.len(),
        forall|i: int| 0 <= i < v->Sequence_0@.len() ==> #[trigger] v@->Sequence_0[i] == v->Sequence_0@[i]@,
{
}

/// Whether no mapping in the tree has a key twice.
pub open spec fn well_formed(t: Tree) -> bool
    decreases t,
{
    match t {
        Tree::Mapping(m) => distinct_keys(m) && well_formed_entries(m),
        Tree::Sequence(s) => well_formed_items(s),
        _ => true,
    }
}

/// Whether the value of every entry is well formed.
pub open spec fn well_formed_entries(m: Seq<(Seq<char>, Tree)>) -> bool
    decreases m,
{
    m.len() == 0 || (well_formed_entries(m.drop_last()) && well_formed(m.last().1))
}

/// Whether every item is well formed.
pub open spec fn well_formed_items(s: Seq<Tree>) -> bool
    decreases s,
{
    s.len() == 0 || (well_formed_items(s.drop_last()) && well_formed(s.last()))
}

} // verus!
