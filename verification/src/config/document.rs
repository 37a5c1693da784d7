//! Parsing configuration documents from YAML text.
use crate::config::merge::{top_keys_unique, YamlModel, YamlNumber, YamlValue};
use serde_yaml_ng::{Number, Value};
use vstd::prelude::*;

verus! {

#[verifier::external_type_specification]
#[verifier::external_body]
pub struct ExYamlDocumentValue(Value);

#[verifier::external_type_specification]
#[verifier::external_body]
pub struct ExYamlNumber(Number);

/// What `serde_yaml_ng::from_str::<serde_yaml_ng::Value>` makes of a text:
/// `None` when the text is not a YAML document, else the document.
pub uninterp spec fn yaml_document(text: Seq<char>) -> Option<YamlModel>;

/// Parses one YAML document with `serde_yaml_ng::from_str` into a
/// `serde_yaml_ng::Value` and converts it, node for node, into a
/// `YamlValue`; on failure, the parser's message. Which texts parse, and to
/// what, is the YAML grammar of that crate and is not stated here. A parsed
/// mapping has no two equal keys: it is an `IndexMap`, and its deserializer
/// refuses a repeated key (`Mapping`'s `visit_map`).
#[verifier::external_body]
fn parse_yaml(text: &str) -> (r: Result<YamlValue, String>)
    ensures
        match r {
            Ok(v) => yaml_document(text@) == Some(v@) && top_keys_unique(v@),
            Err(_) => yaml_document(text@) is None,
        },
{
    match serde_yaml_ng::from_str::<Value>(text) {
        Ok(v) => Ok(value_from(v)),
        Err(e) => Err(e.to_string()),
    }
}

/// Converts a `serde_yaml_ng::Value` node for node; a tag keeps the text
/// after its leading `!`.
#[verifier::external_body]
fn value_from(v: Value) -> YamlValue {
    match v {
        Value::Null => YamlValue::Null,
        Value::Bool(b) => YamlValue::Bool(b),
        Value::Number(n) => YamlValue::Number(number_from(n)),
        Value::String(s) => YamlValue::Str(s),
        Value::Sequence(xs) => YamlValue::Sequence(xs.into_iter().map(value_from).collect()),
        Value::Mapping(m) => YamlValue::Mapping(m.into_iter().map(|(k, x)| (value_from(k), value_from(x))).collect()),
        Value::Tagged(t) => YamlValue::Tagged(t.tag.to_string().split_off(1), Box::new(value_from(t.value))),
    }
}

/// Converts a `serde_yaml_ng::Number`: a non-negative integer, a negative
/// integer, or a float as its IEEE-754 bit pattern.
#[verifier::external_body]
fn number_from(n: Number) -> YamlNumber {
    match (n.as_u64(), n.as_i64()) {
        (Some(u), _) => YamlNumber::PosInt(u),
        (None, Some(i)) => YamlNumber::NegInt(i),
        (None, None) => YamlNumber::FloatBits(n.as_f64().unwrap_or_default().to_bits()),
    }
}

/// Parses the documents in order. When all of them parse: their values, in
/// order (no mapping among them with two equal keys). Otherwise: the index of the first one that does not parse, with
/// the parser's message.
pub fn parse_documents(texts: &Vec<String>) -> (r: Result<Vec<YamlValue>, (usize, String)>)
    ensures
        match r {
            Ok(values) => values.len() == texts.len() && forall|i: int|
                0 <= i < texts.len() ==> #[trigger] yaml_document(texts[i]@) == Some(values[i]@)
                    && top_keys_unique(values[i]@),
            Err((i, _)) => i < texts.len() && yaml_document(texts[i as int]@) is None && forall|j: int|
                0 <= j < i ==> #[trigger] yaml_document(texts[j]@) is Some,
        },
{
    let mut values: Vec<YamlValue> = Vec::new();
    let mut i: usize = 0;
    while i < texts.len()
        invariant
            i <= texts.len(),
            values.len() == i,
            forall|j: int|
                0 <= j < i ==> #[trigger] yaml_document(texts[j]@) == Some(values[j]@) && top_keys_unique(
                    values[j]@,
                ),
        decreases texts.len() - i,
    {
        match parse_yaml(texts[i].as_str()) {
            Ok(v) => {
                values.push(v);
            },
            Err(message) => {
                return Err((i, message));
            },
        }
        i = i + 1;
    }
    Ok(values)
}

} // verus!
