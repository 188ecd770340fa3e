//! Generic parsed YAML documents.
//!
//! The compiler treats YAML parsing as a primitive: bytes go in, a generic
//! tree of mappings comes out, or a parse error.  The primitive is the only
//! trusted step; everything that interprets the resulting tree against the
//! state-file schemas is ordinary verified code over the `Yaml` type below.

use vstd::prelude::*;

verus! {

/// A parsed YAML document, reduced to what the state-file schemas read:
/// strings, sequences, and mappings with entries in document order.  An
/// explicit null stays distinct, because it stands for an absent optional
/// field; every other scalar is carried as `Other`, since no schema gives it
/// a meaning beyond "not the expected shape".
#[derive(Debug, PartialEq, Eq)]
pub enum Yaml {
    Null,
    Str(String),
    List(Vec<Yaml>),
    Mapping(Vec<(Yaml, Yaml)>),
    Other,
}

/// Declares `serde_yaml::Value`, the parser's generic document type, so that
/// the conversion below may take it; the type stays opaque.
#[verifier::external_type_specification]
#[verifier::external_body]
pub struct ExYamlValue(serde_yaml::Value);

/// What parsing the given bytes as one YAML document yields: the document
/// reduced to `Yaml`, or the parser's error message.  Parsing is a function
/// of the bytes alone, so the outcome bears a name.
pub uninterp spec fn yaml_parse_of(bytes: Seq<u8>) -> Result<Yaml, Seq<char>>;

/// Relies on `serde_yaml::from_slice::<serde_yaml::Value>`: parses the bytes
/// into a generic YAML value or fails with a message; the outcome depends on
/// the bytes alone.  The value is carried over variant by variant into
/// `Yaml` by `yaml_of_value`.
#[verifier::external_body]
pub fn parse_yaml(bytes: &[u8]) -> (r: Result<Yaml, String>)
    ensures
        match r {
            Ok(doc) => yaml_parse_of(bytes@) == Ok::<Yaml, Seq<char>>(doc),
            Err(e) => yaml_parse_of(bytes@) == Err::<Yaml, Seq<char>>(e@),
        },
{
    match serde_yaml::from_slice::<serde_yaml::Value>(bytes) {
        Ok(value) => Ok(yaml_of_value(value)),
        Err(err) => Err(err.to_string()),
    }
}

/// Relies on the variants of `serde_yaml::Value`: null, string, sequence and
/// mapping carry over to the like-named `Yaml` variant, entries keeping their
/// document order; booleans, numbers and tagged values become `Other`.
#[verifier::external_body]
fn yaml_of_value(value: serde_yaml::Value) -> Yaml {
    match value {
        serde_yaml::Value::Null => Yaml::Null,
        serde_yaml::Value::Bool(_) => Yaml::Other,
        serde_yaml::Value::Number(_) => Yaml::Other,
        serde_yaml::Value::String(s) => Yaml::Str(s),
        serde_yaml::Value::Sequence(items) => Yaml::List(
            items.into_iter().map(yaml_of_value).collect(),
        ),
        serde_yaml::Value::Mapping(entries) => Yaml::Mapping(
            entries.into_iter().map(|(k, v)| (yaml_of_value(k), yaml_of_value(v))).collect(),
        ),
        serde_yaml::Value::Tagged(_) => Yaml::Other,
    }
}

} // verus!
