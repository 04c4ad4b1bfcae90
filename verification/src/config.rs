//! The conversions between the three configuration formats, and the table
//! that says which pairs of formats are supported.

use crate::flatten::{flatten, flattened};
use crate::json::{
    json_document, json_from_str, json_of_yaml, json_text, json_to_string, json_value_of_yaml,
    yaml_of_json, yaml_value_of_json,
};
use crate::properties::{parse_properties, parsed_properties, properties_text, write_properties};
use crate::text::{lowercase, same_str, to_lowercase};
use crate::tree_io::{
    lemma_unflattened_written_but_for_numbers, node_of_tree, tree_of_node, value_of_yaml,
    yaml_of_value, WriteError, WriteErrorView,
};
use crate::unflatten::{unflatten_properties, unflattened};
use crate::yaml::{yaml_document, yaml_from_str, yaml_text, yaml_to_string};
use vstd::prelude::*;
use vstd::string::StringExecFns;

verus! {

/// One of the three configuration formats.
#[derive(Debug, Clone, Copy, PartialEq, Eq, Structural)]
pub enum Format {
    /// The tree format.
    Yaml,
    /// The flat line format.
    Properties,
    /// The nested object format.
    Json,
}

/// Why a conversion failed.
#[derive(Debug, Clone, PartialEq, Eq)]
pub enum ConvertError {
    /// The pair of formats is not one of the supported ones.
    Unsupported { input: String, output: String },
    /// The input is no document of its format.
    Parse { format: Format, detail: String },
    /// The document has no counterpart among the values of the other format.
    Convert { format: Format, detail: String },
    /// The document cannot be written in the format.
    Serialize { format: Format, detail: String },
}

/// A `ConvertError` as contracts speak of it.
pub enum ConvertErrorView {
    Unsupported { input: Seq<char>, output: Seq<char> },
    Parse { format: Format, detail: Seq<char> },
    Convert { format: Format, detail: Seq<char> },
    Serialize { format: Format, detail: Seq<char> },
}

impl View for ConvertError {
    type V = ConvertErrorView;

    open spec fn view(&self) -> ConvertErrorView {
        match self {
            ConvertError::Unsupported { input, output } => ConvertErrorView::Unsupported {
                input: input@,
                output: output@,
            },
            ConvertError::Parse { format, detail } => ConvertErrorView::Parse {
                format: *format,
                detail: detail@,
            },
            ConvertError::Convert { format, detail } => ConvertErrorView::Convert {
                format: *format,
                detail: detail@,
            },
            ConvertError::Serialize { format, detail } => ConvertErrorView::Serialize {
                format: *format,
                detail: detail@,
            },
        }
    }
}

/// The result of a conversion as contracts speak of it.
pub open spec fn outcome(r: Result<String, ConvertError>) -> Result<Seq<char>, ConvertErrorView> {
    match r {
        Ok(s) => Ok(s@),
        Err(e) => Err(e@),
    }
}

/// The name of a format in messages.
pub open spec fn format_name(f: Format) -> Seq<char> {
    match f {
        Format::Yaml => "YAML"@,
        Format::Properties => "Properties"@,
        Format::Json => "JSON"@,
    }
}

/// The message of an error.
pub open spec fn error_text(e: ConvertErrorView) -> Seq<char> {
    match e {
        ConvertErrorView::Unsupported { input, output } => "不支持的转换: "@ + input + " -> "@
            + output,
        ConvertErrorView::Parse { format, detail } => format_name(format) + " 解析失败: "@ + detail,
        ConvertErrorView::Convert { format, detail } => "转换为 "@ + format_name(format)
            + " 失败: "@ + detail,
        ConvertErrorView::Serialize { format, detail } => format_name(format) + " 序列化失败: "@
            + detail,
    }
}

/// The message of why a tree cannot be written.
pub open spec fn write_error_text(e: WriteErrorView) -> Seq<char> {
    match e {
        WriteErrorView::Tagged => "a tagged node has no place in the document"@,
        WriteErrorView::Number(t) => "not a number: "@ + t,
    }
}

impl Format {
    /// The name of the format in messages.
    pub fn name(&self) -> (r: &'static str)
        ensures
            r@ == format_name(*self),
    {
        match self {
            Format::Yaml => "YAML",
            Format::Properties => "Properties",
            Format::Json => "JSON",
        }
    }
}

impl ConvertError {
    /// The message of the error, for a reader.
    pub fn message(&self) -> (r: String)
        ensures
            r@ == error_text(self@),
    {
        match self {
            ConvertError::Unsupported { input, output } => {
                let mut out = String::from_str("不支持的转换: ");
                out.append(input.as_str());
                out.append(" -> ");
                out.append(output.as_str());
                out
            },
            ConvertError::Parse { format, detail } => {
                let mut out = String::from_str(format.name());
                out.append(" 解析失败: ");
                out.append(detail.as_str());
                out
            },
            ConvertError::Convert { format, detail } => {
                let mut out = String::from_str("转换为 ");
                out.append(format.name());
                out.append(" 失败: ");
                out.append(detail.as_str());
                out
            },
            ConvertError::Serialize { format, detail } => {
                let mut out = String::from_str(format.name());
                out.append(" 序列化失败: ");
                out.append(detail.as_str());
                out
            },
        }
    }
}

/// The message of why a tree cannot be written.
pub fn write_error_message(e: &WriteError) -> (r: String)
    ensures
        r@ == write_error_text(e@),
{
    match e {
        WriteError::Tagged => String::from_str("a tagged node has no place in the document"),
        WriteError::Number(t) => {
            let mut out = String::from_str("not a number: ");
            out.append(t.as_str());
            out
        },
    }
}

/// What converting a document of the tree format to the flat line format
/// gives.
pub open spec fn yaml_to_properties_outcome(text: Seq<char>) -> Result<Seq<char>, ConvertErrorView> {
    match yaml_document(text) {
        Err(m) => Err(ConvertErrorView::Parse { format: Format::Yaml, detail: m }),
        Ok(node) => Ok(properties_text(flattened(tree_of_node(node)))),
    }
}

/// What converting a document of the nested object format to the flat line
/// format gives.
pub open spec fn json_to_properties_outcome(text: Seq<char>) -> Result<Seq<char>, ConvertErrorView> {
    match json_document(text) {
        Err(m) => Err(ConvertErrorView::Parse { format: Format::Json, detail: m }),
        Ok(json) => match yaml_of_json(json) {
            Err(m) => Err(ConvertErrorView::Convert { format: Format::Yaml, detail: m }),
            Ok(node) => Ok(properties_text(flattened(tree_of_node(node)))),
        },
    }
}

/// What converting a text of the flat line format to the tree format gives.
pub open spec fn properties_to_yaml_outcome(text: Seq<char>) -> Result<Seq<char>, ConvertErrorView> {
    match node_of_tree(unflattened(parsed_properties(text))) {
        Err(e) => Err(
            ConvertErrorView::Serialize { format: Format::Yaml, detail: write_error_text(e) },
        ),
        Ok(node) => match yaml_text(node) {
            Err(m) => Err(ConvertErrorView::Serialize { format: Format::Yaml, detail: m }),
            Ok(s) => Ok(s),
        },
    }
}

/// What converting a text of the flat line format to the nested object format
/// gives.
pub open spec fn properties_to_json_outcome(text: Seq<char>) -> Result<Seq<char>, ConvertErrorView> {
    match node_of_tree(unflattened(parsed_properties(text))) {
        Err(e) => Err(
            ConvertErrorView::Convert { format: Format::Json, detail: write_error_text(e) },
        ),
        Ok(node) => match json_of_yaml(node) {
            Err(m) => Err(ConvertErrorView::Convert { format: Format::Json, detail: m }),
            Ok(json) => match json_text(json) {
                Err(m) => Err(ConvertErrorView::Serialize { format: Format::Json, detail: m }),
                Ok(s) => Ok(s),
            },
        },
    }
}

/// What converting a document of the tree format to the nested object format
/// gives.
pub open spec fn yaml_to_json_outcome(text: Seq<char>) -> Result<Seq<char>, ConvertErrorView> {
    match yaml_document(text) {
        Err(m) => Err(ConvertErrorView::Parse { format: Format::Yaml, detail: m }),
        Ok(node) => match json_of_yaml(node) {
            Err(m) => Err(ConvertErrorView::Convert { format: Format::Json, detail: m }),
            Ok(json) => match json_text(json) {
                Err(m) => Err(ConvertErrorView::Serialize { format: Format::Json, detail: m }),
                Ok(s) => Ok(s),
            },
        },
    }
}

/// What converting a document of the nested object format to the tree format
/// gives.
pub open spec fn json_to_yaml_outcome(text: Seq<char>) -> Result<Seq<char>, ConvertErrorView> {
    match json_document(text) {
        Err(m) => Err(ConvertErrorView::Parse { format: Format::Json, detail: m }),
        Ok(json) => match yaml_of_json(json) {
            Err(m) => Err(ConvertErrorView::Convert { format: Format::Yaml, detail: m }),
            Ok(node) => match yaml_text(node) {
                Err(m) => Err(ConvertErrorView::Serialize { format: Format::Yaml, detail: m }),
                Ok(s) => Ok(s),
            },
        },
    }
}

/// Converts a document of the tree format to the flat line format.
pub fn yaml_to_properties(content: &str) -> (r: Result<String, ConvertError>)
    ensures
        outcome(r) == yaml_to_properties_outcome(content@),
{
    match yaml_from_str(content) {
        Err(m) => Err(ConvertError::Parse { format: Format::Yaml, detail: m }),
        Ok(y) => {
            let tree = value_of_yaml(&y);
            Ok(write_properties(&flatten(&tree)))
        },
    }
}

/// Converts a document of the nested object format to the flat line format.
pub fn json_to_properties(content: &str) -> (r: Result<String, ConvertError>)
    ensures
        outcome(r) == json_to_properties_outcome(content@),
{
    match json_from_str(content) {
        Err(m) => Err(ConvertError::Parse { format: Format::Json, detail: m }),
        Ok(j) => match yaml_value_of_json(&j) {
            Err(m) => Err(ConvertError::Convert { format: Format::Yaml, detail: m }),
            Ok(y) => {
                let tree = value_of_yaml(&y);
                Ok(write_properties(&flatten(&tree)))
            },
        },
    }
}

/// Converts a text of the flat line format to the tree format.
pub fn properties_to_yaml(content: &str) -> (r: Result<String, ConvertError>)
    ensures
        outcome(r) == properties_to_yaml_outcome(content@),
{
    let tree = unflatten_properties(&parse_properties(content));
    match yaml_of_value(&tree) {
        Err(e) => Err(
            ConvertError::Serialize { format: Format::Yaml, detail: write_error_message(&e) },
        ),
        Ok(y) => match yaml_to_string(&y) {
            Err(m) => Err(ConvertError::Serialize { format: Format::Yaml, detail: m }),
            Ok(s) => Ok(s),
        },
    }
}

/// Converts a text of the flat line format to the nested object format.
pub fn properties_to_json(content: &str) -> (r: Result<String, ConvertError>)
    ensures
        outcome(r) == properties_to_json_outcome(content@),
{
    let tree = unflatten_properties(&parse_properties(content));
    match yaml_of_value(&tree) {
        Err(e) => Err(
            ConvertError::Convert { format: Format::Json, detail: write_error_message(&e) },
        ),
        Ok(y) => match json_value_of_yaml(&y) {
            Err(m) => Err(ConvertError::Convert { format: Format::Json, detail: m }),
            Ok(j) => match json_to_string(&j) {
                Err(m) => Err(ConvertError::Serialize { format: Format::Json, detail: m }),
                Ok(s) => Ok(s),
            },
        },
    }
}

/// Converts a document of the tree format to the nested object format.
pub fn yaml_to_json(content: &str) -> (r: Result<String, ConvertError>)
    ensures
        outcome(r) == yaml_to_json_outcome(content@),
{
    match yaml_from_str(content) {
        Err(m) => Err(ConvertError::Parse { format: Format::Yaml, detail: m }),
        Ok(y) => match json_value_of_yaml(&y) {
            Err(m) => Err(ConvertError::Convert { format: Format::Json, detail: m }),
            Ok(j) => match json_to_string(&j) {
                Err(m) => Err(ConvertError::Serialize { format: Format::Json, detail: m }),
                Ok(s) => Ok(s),
            },
        },
    }
}

/// Converts a document of the nested object format to the tree format.
pub fn json_to_yaml(content: &str) -> (r: Result<String, ConvertError>)
    ensures
        outcome(r) == json_to_yaml_outcome(content@),
{
    match json_from_str(content) {
        Err(m) => Err(ConvertError::Parse { format: Format::Json, detail: m }),
        Ok(j) => match yaml_value_of_json(&j) {
            Err(m) => Err(ConvertError::Convert { format: Format::Yaml, detail: m }),
            Ok(y) => match yaml_to_string(&y) {
                Err(m) => Err(ConvertError::Serialize { format: Format::Yaml, detail: m }),
                Ok(s) => Ok(s),
            },
        },
    }
}

/// The format that an extension in lower case names.
pub open spec fn format_of(tag: Seq<char>) -> Option<Format> {
    if tag == "yaml"@ || tag == "yml"@ {
        Some(Format::Yaml)
    } else if tag == "properties"@ {
        Some(Format::Properties)
    } else if tag == "json"@ {
        Some(Format::Json)
    } else {
        None
    }
}

/// Whether a document of the format named `input` can be converted to the
/// format named `output`: both name a format, and not the same one.
pub open spec fn supported(input: Seq<char>, output: Seq<char>) -> bool {
    format_of(input) is Some && format_of(output) is Some && format_of(input) != format_of(output)
}

/// What converting `content` from the format named `input` to the format
/// named `output` gives, both names in lower case.
pub open spec fn converted(input: Seq<char>, output: Seq<char>, content: Seq<char>) -> Result<
    Seq<char>,
    ConvertErrorView,
> {
    match (format_of(input), format_of(output)) {
        (Some(Format::Yaml), Some(Format::Properties)) => yaml_to_properties_outcome(content),
        (Some(Format::Properties), Some(Format::Yaml)) => properties_to_yaml_outcome(content),
        (Some(Format::Yaml), Some(Format::Json)) => yaml_to_json_outcome(content),
        (Some(Format::Json), Some(Format::Yaml)) => json_to_yaml_outcome(content),
        (Some(Format::Properties), Some(Format::Json)) => properties_to_json_outcome(content),
        (Some(Format::Json), Some(Format::Properties)) => json_to_properties_outcome(content),
        _ => Err(ConvertErrorView::Unsupported { input, output }),
    }
}

/// The format that the extension `tag`, in lower case, names.
pub fn format_of_tag(tag: &str) -> (r: Option<Format>)
    ensures
        r == format_of(tag@),
{
    if same_str(tag, "yaml") || same_str(tag, "yml") {
        Some(Format::Yaml)
    } else if same_str(tag, "properties") {
        Some(Format::Properties)
    } else if same_str(tag, "json") {
        Some(Format::Json)
    } else {
        None
    }
}

/// Converts `content` from the format named `input` to the format named
/// `output`, both names in lower case.
pub fn convert_between(input: &str, output: &str, content: &str) -> (r: Result<
    String,
    ConvertError,
>)
    ensures
        outcome(r) == converted(input@, output@, content@),
{
    let from = format_of_tag(input);
    let to = format_of_tag(output);
    match (from, to) {
        (Some(Format::Yaml), Some(Format::Properties)) => yaml_to_properties(content),
        (Some(Format::Properties), Some(Format::Yaml)) => properties_to_yaml(content),
        (Some(Format::Yaml), Some(Format::Json)) => yaml_to_json(content),
        (Some(Format::Json), Some(Format::Yaml)) => json_to_yaml(content),
        (Some(Format::Properties), Some(Format::Json)) => properties_to_json(content),
        (Some(Format::Json), Some(Format::Properties)) => json_to_properties(content),
        _ => Err(
            ConvertError::Unsupported {
                input: String::from_str(input),
                output: String::from_str(output),
            },
        ),
    }
}

/// Converts `content`, the text of a file with the extension `input_ext`, to
/// the format that `output_ext` names. The extensions may be in any case.
pub fn convert_config(input_ext: &str, output_ext: &str, content: &str) -> (r: Result<
    String,
    ConvertError,
>)
    ensures
        outcome(r) == converted(lowercase(input_ext@), lowercase(output_ext@), content@),
{
    let input = to_lowercase(input_ext);
    let output = to_lowercase(output_ext);
    convert_between(input.as_str(), output.as_str(), content)
}

/// The formats that the extensions `input_ext` and `output_ext` name, where a
/// document of the first can be converted to the second; else the failure
/// that names both. The extensions may be in any case.
pub fn route(input_ext: &str, output_ext: &str) -> (r: Result<(Format, Format), ConvertError>)
    ensures
        match r {
            Ok((from, to)) => supported(lowercase(input_ext@), lowercase(output_ext@)) && format_of(
                lowercase(input_ext@),
            ) == Some(from) && format_of(lowercase(output_ext@)) == Some(to),
            Err(e) => !supported(lowercase(input_ext@), lowercase(output_ext@)) && e@ == (
            ConvertErrorView::Unsupported {
                input: lowercase(input_ext@),
                output: lowercase(output_ext@),
            }),
        },
{
    let input = to_lowercase(input_ext);
    let output = to_lowercase(output_ext);
    match (format_of_tag(input.as_str()), format_of_tag(output.as_str())) {
        (Some(from), Some(to)) => {
            if from == to {
                Err(ConvertError::Unsupported { input, output })
            } else {
                Ok((from, to))
            }
        },
        _ => Err(ConvertError::Unsupported { input, output }),
    }
}

/// Whether `serde_yaml` and `serde_json` accept what a conversion hands them:
/// the document, read; the tree, carried over to the other format; and the
/// text, written. For a text of the flat line format nothing is read by them,
/// and its tree is what the unflattened entries give.
pub open spec fn accepted(from: Format, to: Format, content: Seq<char>) -> bool {
    match (from, to) {
        (Format::Yaml, Format::Properties) => yaml_document(content) is Ok,
        (Format::Json, Format::Properties) => json_document(content) matches Ok(json)
            && yaml_of_json(json) is Ok,
        (Format::Yaml, Format::Json) => yaml_document(content) matches Ok(node) && json_of_yaml(
            node,
        ) matches Ok(json) && json_text(json) is Ok,
        (Format::Json, Format::Yaml) => json_document(content) matches Ok(json) && yaml_of_json(
            json,
        ) matches Ok(node) && yaml_text(node) is Ok,
        (Format::Properties, Format::Yaml) => node_of_tree(
            unflattened(parsed_properties(content)),
        ) matches Ok(node) && yaml_text(node) is Ok,
        (Format::Properties, Format::Json) => node_of_tree(
            unflattened(parsed_properties(content)),
        ) matches Ok(node) && json_of_yaml(node) matches Ok(json) && json_text(json) is Ok,
        _ => false,
    }
}

/// A conversion between two formats of a supported pair succeeds exactly
/// where `serde_yaml` and `serde_json` accept what it hands them. Nothing of
/// the library's own stands in the way: every text of the flat line format is
/// read, every tree is flattened, and the tree of flat entries holds no
/// tagged node, so that it can be written but for its numbers.
pub proof fn lemma_supported_pair_succeeds(input: Seq<char>, output: Seq<char>, content: Seq<char>)
    requires
        supported(input, output),
    ensures
        converted(input, output, content) is Ok <==> accepted(
            format_of(input)->0,
            format_of(output)->0,
            content,
        ),
        node_of_tree(unflattened(parsed_properties(content))) is Ok || node_of_tree(
            unflattened(parsed_properties(content)),
        ) matches Err(WriteErrorView::Number(_)),
{
    lemma_unflattened_written_but_for_numbers(parsed_properties(content));
}

/// A conversion fails as unsupported, naming both formats, exactly where the
/// pair of formats is not supported.
pub proof fn lemma_router_complete(input: Seq<char>, output: Seq<char>, content: Seq<char>)
    ensures
        !supported(input, output) ==> converted(input, output, content) == Err::<
            Seq<char>,
            ConvertErrorView,
        >(ConvertErrorView::Unsupported { input, output }),
        supported(input, output) ==> !(converted(input, output, content) matches Err(
            ConvertErrorView::Unsupported { .. },
        )),
{
}

} // verus!
