//! The nested object format: JSON, read and written by `serde_json`.
//!
//! What is stated here of `serde_json` is taken on trust. A value of
//! `serde_json` stays closed to the verifier; `json_node` names the tree that
//! it holds.

use crate::yaml::{yaml_node, Node};
use vstd::prelude::*;

verus! {

#[verifier::external_type_specification]
#[verifier::external_body]
pub struct ExJsonValue(serde_json::Value);

/// The tree that a value of `serde_json` holds.
pub uninterp spec fn json_node(v: serde_json::Value) -> Node;

/// What `serde_json::from_str` reads from a text: the tree of the document, or
/// the message of the error.
pub uninterp spec fn json_document(text: Seq<char>) -> Result<Node, Seq<char>>;

/// What `serde_json::to_string` writes for a tree: the text, on one line, or
/// the message of the error.
pub uninterp spec fn json_text(tree: Node) -> Result<Seq<char>, Seq<char>>;

/// What `serde_json::to_value` makes of the tree of a value of `serde_yaml`:
/// the tree of a value of `serde_json`, or the message of the error.
pub uninterp spec fn json_of_yaml(tree: Node) -> Result<Node, Seq<char>>;

/// What `serde_yaml::to_value` makes of the tree of a value of `serde_json`:
/// the tree of a value of `serde_yaml`, or the message of the error.
pub uninterp spec fn yaml_of_json(tree: Node) -> Result<Node, Seq<char>>;

/// `serde_json::from_str` for a `serde_json::Value`: the document that the text
/// holds, or the message of the error.
#[verifier::external_body]
pub(crate) fn json_from_str(text: &str) -> (r: Result<serde_json::Value, String>)
    ensures
        match r {
            Ok(v) => json_document(text@) == Ok::<Node, Seq<char>>(json_node(v)),
            Err(m) => json_document(text@) == Err::<Node, Seq<char>>(m@),
        },
{
    serde_json::from_str::<serde_json::Value>(text).map_err(|e| e.to_string())
}

/// `serde_json::to_string`: the text that writes the value, or the message of
/// the error.
#[verifier::external_body]
pub(crate) fn json_to_string(v: &serde_json::Value) -> (r: Result<String, String>)
    ensures
        match r {
            Ok(s) => json_text(json_node(*v)) == Ok::<Seq<char>, Seq<char>>(s@),
            Err(m) => json_text(json_node(*v)) == Err::<Seq<char>, Seq<char>>(m@),
        },
{
    serde_json::to_string(v).map_err(|e| e.to_string())
}

/// `serde_json::to_value` of a value of `serde_yaml`: the value of `serde_json`
/// with the same content, or the message of the error.
#[verifier::external_body]
pub(crate) fn json_value_of_yaml(v: &serde_yaml::Value) -> (r: Result<serde_json::Value, String>)
    ensures
        match r {
            Ok(j) => json_of_yaml(yaml_node(*v)) == Ok::<Node, Seq<char>>(json_node(j)),
            Err(m) => json_of_yaml(yaml_node(*v)) == Err::<Node, Seq<char>>(m@),
        },
{
    serde_json::to_value(v).map_err(|e| e.to_string())
}

/// `serde_yaml::to_value` of a value of `serde_json`: the value of `serde_yaml`
/// with the same content, or the message of the error.
#[verifier::external_body]
pub(crate) fn yaml_value_of_json(v: &serde_json::Value) -> (r: Result<serde_yaml::Value, String>)
    ensures
        match r {
            Ok(y) => yaml_of_json(json_node(*v)) == Ok::<Node, Seq<char>>(yaml_node(y)),
            Err(m) => yaml_of_json(json_node(*v)) == Err::<Node, Seq<char>>(m@),
        },
{
    serde_yaml::to_value(v).map_err(|e| e.to_string())
}

} // verus!
