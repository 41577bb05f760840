use vstd::prelude::*;

verus! {

#[verifier::external_type_specification]
#[verifier::external_body]
pub struct ExValue(serde_json::Value);

#[verifier::external_type_specification]
#[verifier::external_body]
pub struct ExJsonError(serde_json::Error);

/// Whether `s` is JSON text that serde_json parses into a value.
pub uninterp spec fn json_parses(s: Seq<char>) -> bool;

/// Relies on serde_json::to_string: turns a JSON value into its text. It
/// fails only where a `Serialize` impl fails or a map has non-string keys,
/// and a `Value` does neither.
#[verifier::external_body]
pub(crate) fn encode_value(v: &serde_json::Value) -> (r: Result<String, serde_json::Error>)
    ensures
        r is Ok,
{
    serde_json::to_string(v)
}

/// Relies on serde_json::from_str: parses JSON text into a value; whether it
/// succeeds depends on the text alone.
#[verifier::external_body]
pub(crate) fn decode_value(s: &str) -> (r: Result<serde_json::Value, serde_json::Error>)
    ensures
        r is Ok <==> json_parses(s@),
{
    serde_json::from_str(s)
}

} // verus!
