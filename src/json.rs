//! JSON and YAML text of `serde_json::Value`s, through serde_json and serde_yaml.
use vstd::prelude::*;
use serde_json::Value;

verus! {

#[verifier::external_type_specification]
#[verifier::external_body]
pub struct ExValue(serde_json::Value);

/// Relies on serde_json::Value's derived `Clone`: the copy is the same JSON value.
pub assume_specification[ <serde_json::Value as Clone>::clone ](v: &serde_json::Value) -> (r:
    serde_json::Value)
    ensures
        r == *v,
;

/// The text that serde_json's pretty printer writes for a JSON value.
pub uninterp spec fn pretty_text(v: Value) -> Seq<char>;

/// The JSON string literal, quotes and escapes included, that serde_json writes for a text.
pub uninterp spec fn quoted(s: Seq<char>) -> Seq<char>;

/// Relies on serde_json::to_string_pretty, which cannot fail on a `Value`.
#[verifier::external_body]
pub(crate) fn pretty_json(v: &Value) -> (r: String)
    ensures
        r@ == pretty_text(*v),
{
    serde_json::to_string_pretty(v).unwrap_or_default()
}

/// Relies on serde_json::to_string, which cannot fail on a `str`.
#[verifier::external_body]
pub(crate) fn quote_json(s: &str) -> (r: String)
    ensures
        r@ == quoted(s@),
{
    serde_json::to_string(s).unwrap_or_default()
}

/// The JSON value that serde_json reads from a text, if the text is JSON.
pub uninterp spec fn parsed_json(s: Seq<char>) -> Option<Value>;

/// Relies on serde_json::from_str: the value the text holds, or the parser's message.
#[verifier::external_body]
pub(crate) fn parse_json(s: &str) -> (r: Result<Value, String>)
    ensures
        r is Ok <==> parsed_json(s@) is Some,
        r is Ok ==> r->Ok_0 == parsed_json(s@)->Some_0,
{
    serde_json::from_str::<Value>(s).map_err(|e| e.to_string())
}

/// The compact text that serde_json's `Display` writes for a JSON value.
pub uninterp spec fn compact_text(v: Value) -> Seq<char>;

/// Relies on serde_json::Value's `Display`, which writes the compact JSON text.
#[verifier::external_body]
pub(crate) fn compact_json(v: &Value) -> (r: String)
    ensures
        r@ == compact_text(*v),
{
    v.to_string()
}

/// The YAML text that serde_yaml writes for a JSON value.
pub uninterp spec fn yaml_text(v: Value) -> Seq<char>;

/// Relies on serde_yaml::to_string: the YAML text of the value, or the serializer's message.
#[verifier::external_body]
pub(crate) fn yaml_of(v: &Value) -> (r: Result<String, String>)
    ensures
        r is Ok ==> r->Ok_0@ == yaml_text(*v),
{
    serde_yaml::to_string(v).map_err(|e| e.to_string())
}

} // verus!
