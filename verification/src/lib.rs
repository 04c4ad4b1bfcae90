//! A file converter's decisions and texts, verified.
//!
//! The heart is the conversion between three configuration formats: a tree
//! format (YAML), a flat line format (Java properties) and a nested object
//! format (JSON). The tree and the object format are read and written by
//! `serde_yaml` and `serde_json`; everything between the two is verified here:
//! the value model ([`value`]), flattening a tree into dotted keys
//! ([`flatten`]), rebuilding a tree from them ([`unflatten`]), typing raw text
//! ([`infer`]), the line format and its escapes ([`line`], [`escape`],
//! [`properties`]), and the table of supported conversions ([`config`]).
//!
//! What holds of several of these together is proved in the modules whose
//! names end in `_laws`: a written line is read back as it was
//! ([`line_laws`]), written entries are read back and written identically
//! again ([`properties_laws`]), a tree of mappings comes back from its flat
//! entries ([`tree_laws`]), and a tree written as lines is written as the same
//! lines after a round trip ([`tree_text_laws`]).
//!
//! Around it stand the decisions for the other kinds of files ([`api`],
//! [`document`], [`image`], [`media`]); running tools, reading and writing
//! files is left to the caller.
//!
//! What is taken on trust of outside code stands in [`yaml`], [`json`] and
//! [`markup`], and in two items of [`text`].

pub mod api;
pub mod config;
pub mod document;
pub mod escape;
pub mod flat;
pub mod flatten;
pub mod image;
pub mod infer;
pub mod json;
pub mod line;
pub mod line_laws;
pub mod markup;
pub mod media;
pub mod numeral;
pub mod properties;
pub mod properties_laws;
pub mod tree_text_laws;
pub mod text;
pub mod tree_io;
pub mod tree_laws;
pub mod unflatten;
pub mod value;
pub mod yaml;
