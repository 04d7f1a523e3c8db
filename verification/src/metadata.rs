//! The metadata document attached to a prompt template.
//!
//! Metadata is a JSON object. The library never looks inside it; it is
//! attached at construction and carried along unchanged.

use vstd::prelude::*;

verus! {

#[verifier::external_type_specification]
#[verifier::external_body]
#[verifier::reject_recursive_types(K)]
#[verifier::reject_recursive_types(V)]
pub struct ExMap<K, V>(serde_json::Map<K, V>);

#[verifier::external_type_specification]
#[verifier::external_body]
pub struct ExValue(serde_json::Value);

/// The JSON-object document attached to a prompt template as metadata:
/// string keys, arbitrary JSON values.
pub type JsonMap = serde_json::Map<String, serde_json::Value>;

/// Relies on serde_json::Map::new: builds the empty JSON object, used as
/// the default metadata of a template.
pub assume_specification[ serde_json::Map::<String, serde_json::Value>::new ]() -> (r:
    serde_json::Map<String, serde_json::Value>);

} // verus!
