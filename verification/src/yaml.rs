//! The tree format: YAML, read and written by `serde_yaml`.
//!
//! What is stated here of `serde_yaml` is taken on trust. A value of
//! `serde_yaml` stays closed to the verifier; `yaml_node` names the tree that
//! it holds, and the items below say how `serde_yaml` makes, reads and writes
//! such values in terms of that tree.

use crate::flat::{put, put_all};
use vstd::prelude::*;

verus! {

/// The tree that a value of `serde_yaml` or of `serde_json` holds.
pub enum Node {
    Null,
    Bool(bool),
    /// A number, as the text that `serde_yaml` writes for it.
    Number(Seq<char>),
    String(Seq<char>),
    Sequence(Seq<Node>),
    /// The entries of a mapping, in their order; a key can be any node.
    Mapping(Seq<(Node, Node)>),
    /// A tagged node: the tag and what it is put on.
    Tagged(Seq<char>, Box<Node>),
}

#[verifier::external_type_specification]
#[verifier::external_body]
pub struct ExYamlValue(serde_yaml::Value);

/// The tree that a value of `serde_yaml` holds.
pub uninterp spec fn yaml_node(v: serde_yaml::Value) -> Node;

/// What `serde_yaml::from_str` reads from a text: the tree of the document, or
/// the message of the error.
pub uninterp spec fn yaml_document(text: Seq<char>) -> Result<Node, Seq<char>>;

/// What `serde_yaml::to_string` writes for a tree: the text, or the message of
/// the error.
pub uninterp spec fn yaml_text(tree: Node) -> Result<Seq<char>, Seq<char>>;

/// The number that `serde_yaml` reads from a text, as the text that it writes
/// for that number; `None` where it reads no number.
pub uninterp spec fn yaml_number_text(text: Seq<char>) -> Option<Seq<char>>;

/// `serde_yaml::from_str` for a `serde_yaml::Value`: the document that the text
/// holds, or the message of the error.
#[verifier::external_body]
pub(crate) fn yaml_from_str(text: &str) -> (r: Result<serde_yaml::Value, String>)
    ensures
        match r {
            Ok(v) => yaml_document(text@) == Ok::<Node, Seq<char>>(yaml_node(v)),
            Err(m) => yaml_document(text@) == Err::<Node, Seq<char>>(m@),
        },
{
    serde_yaml::from_str::<serde_yaml::Value>(text).map_err(|e| e.to_string())
}

/// `serde_yaml::to_string`: the text that writes the value, or the message of
/// the error.
#[verifier::external_body]
pub(crate) fn yaml_to_string(v: &serde_yaml::Value) -> (r: Result<String, String>)
    ensures
        match r {
            Ok(s) => yaml_text(yaml_node(*v)) == Ok::<Seq<char>, Seq<char>>(s@),
            Err(m) => yaml_text(yaml_node(*v)) == Err::<Seq<char>, Seq<char>>(m@),
        },
{
    serde_yaml::to_string(v).map_err(|e| e.to_string())
}

/// One level of a value of `serde_yaml`: its kind, with what a leaf holds and
/// with the values below a sequence or a mapping.
pub enum YamlShape<'a> {
    Null,
    Bool(bool),
    /// A number, as the text that `serde_yaml` writes for it.
    Number(String),
    String(String),
    Sequence(&'a Vec<serde_yaml::Value>),
    /// The keys and values of a mapping, in their order.
    Mapping(Vec<(&'a serde_yaml::Value, &'a serde_yaml::Value)>),
    Tagged,
}

/// Whether `shape` is one level of the tree `node`.
pub open spec fn shape_of(shape: YamlShape<'_>, node: Node) -> bool {
    match shape {
        YamlShape::Null => node == Node::Null,
        YamlShape::Bool(b) => node == Node::Bool(b),
        YamlShape::Number(t) => node == Node::Number(t@),
        YamlShape::String(s) => node == Node::String(s@),
        YamlShape::Sequence(items) => node == Node::Sequence(
            items@.map_values(|v: serde_yaml::Value| yaml_node(v)),
        ),
        YamlShape::Mapping(entries) => node == Node::Mapping(
            entries@.map_values(
                |e: (&serde_yaml::Value, &serde_yaml::Value)| (yaml_node(*e.0), yaml_node(*e.1)),
            ),
        ),
        YamlShape::Tagged => node is Tagged,
    }
}

/// Opens one level of a value of `serde_yaml`, variant by variant. A number
/// comes as `Number`'s `to_string` writes it, the entries of a mapping as
/// `Mapping::iter` hands them out.
#[verifier::external_body]
pub(crate) fn yaml_shape(v: &serde_yaml::Value) -> (r: YamlShape<'_>)
    ensures
        shape_of(r, yaml_node(*v)),
{
    match v {
        serde_yaml::Value::Null => YamlShape::Null,
        serde_yaml::Value::Bool(b) => YamlShape::Bool(*b),
        serde_yaml::Value::Number(n) => YamlShape::Number(n.to_string()),
        serde_yaml::Value::String(s) => YamlShape::String(s.clone()),
        serde_yaml::Value::Sequence(items) => YamlShape::Sequence(items),
        serde_yaml::Value::Mapping(m) => YamlShape::Mapping(m.iter().collect()),
        serde_yaml::Value::Tagged(_) => YamlShape::Tagged,
    }
}

/// What a value of `serde_yaml` is made from: a leaf, or the values below a
/// sequence or a mapping.
pub enum YamlParts {
    Null,
    Bool(bool),
    String(String),
    Sequence(Vec<serde_yaml::Value>),
    /// The keys and values of a mapping, each key a text.
    Mapping(Vec<(String, serde_yaml::Value)>),
}

/// The tree of the value made from `parts`. The entries of a mapping are
/// stored one after another, so that a key that comes again keeps its place
/// and takes the later value.
pub open spec fn node_of_parts(parts: YamlParts) -> Node {
    match parts {
        YamlParts::Null => Node::Null,
        YamlParts::Bool(b) => Node::Bool(b),
        YamlParts::String(s) => Node::String(s@),
        YamlParts::Sequence(items) => Node::Sequence(
            items@.map_values(|v: serde_yaml::Value| yaml_node(v)),
        ),
        YamlParts::Mapping(entries) => Node::Mapping(
            put_all(
                Seq::empty(),
                entries@.map_values(|e: (String, serde_yaml::Value)| (e.0@, yaml_node(e.1))),
            ).map_values(|e: (Seq<char>, Node)| (Node::String(e.0), e.1)),
        ),
    }
}

/// Makes a value of `serde_yaml`, variant by variant; a mapping by collecting
/// its entries in their order, as `Mapping::insert` stores them.
#[verifier::external_body]
pub(crate) fn yaml_of_parts(parts: YamlParts) -> (r: serde_yaml::Value)
    ensures
        yaml_node(r) == node_of_parts(parts),
{
    match parts {
        YamlParts::Null => serde_yaml::Value::Null,
        YamlParts::Bool(b) => serde_yaml::Value::Bool(b),
        YamlParts::String(s) => serde_yaml::Value::String(s),
        YamlParts::Sequence(items) => serde_yaml::Value::Sequence(items),
        YamlParts::Mapping(entries) => serde_yaml::Value::Mapping(
            entries.into_iter().map(|(k, v)| (serde_yaml::Value::String(k), v)).collect(),
        ),
    }
}

/// `str::parse` for a `serde_yaml::Number`: the number that the text writes,
/// as a value; `None` where the text writes no number.
#[verifier::external_body]
pub(crate) fn yaml_number(text: &str) -> (r: Option<serde_yaml::Value>)
    ensures
        match r {
            Some(v) => yaml_number_text(text@) matches Some(t) && yaml_node(v) == Node::Number(t),
            None => yaml_number_text(text@) is None,
        },
{
    text.parse::<serde_yaml::Number>().ok().map(serde_yaml::Value::Number)
}

} // verus!
