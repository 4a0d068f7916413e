//! The bridge to the outside document parser. The engine consumes a
//! generic `Value` tree and treats the parser that produces it as a
//! supplied collaborator: nothing is assumed about what a given text
//! parses to.

use vstd::prelude::*;
use crate::value::Value;

verus! {

#[verifier::external_type_specification]
#[verifier::external_body]
pub struct ExYaml(yaml_rust::Yaml);

/// Relies on the `yaml_rust::Yaml` data model: each variant is moved
/// field by field onto the engine's own document type (an alias, which
/// that parser does not resolve, becomes the absent sentinel).
#[verifier::external_body]
fn yaml_to_value(y: &yaml_rust::Yaml) -> Value {
    match y {
        yaml_rust::Yaml::Real(s) => Value::Real(s.clone()),
        yaml_rust::Yaml::Integer(n) => Value::Integer(*n),
        yaml_rust::Yaml::String(s) => Value::Str(s.clone()),
        yaml_rust::Yaml::Boolean(b) => Value::Boolean(*b),
        yaml_rust::Yaml::Array(a) => Value::Array(a.iter().map(yaml_to_value).collect()),
        yaml_rust::Yaml::Hash(h) => Value::Hash(
            h.iter().map(|(k, v)| (yaml_to_value(k), yaml_to_value(v))).collect(),
        ),
        yaml_rust::Yaml::Alias(_) => Value::BadValue,
        yaml_rust::Yaml::Null => Value::Null,
        yaml_rust::Yaml::BadValue => Value::BadValue,
    }
}

/// Relies on `yaml_rust::YamlLoader::load_from_str`: parses a text
/// into zero or more documents, or reports a scan error. What a given
/// text parses to is not modelled: callers state nothing about the
/// returned documents.
#[verifier::external_body]
pub(crate) fn load_documents(text: &str) -> Result<Vec<Value>, String> {
    match yaml_rust::YamlLoader::load_from_str(text) {
        Ok(docs) => Ok(docs.iter().map(yaml_to_value).collect()),
        Err(e) => Err(format!("{}", e)),
    }
}

} // verus!
