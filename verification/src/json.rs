//! Where the logic reads JSON text: a JSON-RPC message's id and whether it is
//! a response, and the arguments of a tool call.
use vstd::prelude::*;

verus! {

/// What the logic reads of a JSON-RPC message given as JSON text, when it
/// parses (with `serde_json`): its `id` when that is an integer that fits in
/// an `i64`, and whether it has a `result` and an `error` field.
pub uninterp spec fn json_message_of(text: Seq<char>) -> Option<(Option<i64>, bool, bool)>;

/// `serde_json::from_str` into a `serde_json::Value`; then `get("id")` read
/// with `serde_json::Value::as_i64`, and whether `get` finds `result` and
/// `error`. `None` when the text is not JSON.
#[verifier::external_body]
pub(crate) fn json_message(text: &str) -> (r: Option<(Option<i64>, bool, bool)>)
    ensures
        r == json_message_of(text@),
{
    match serde_json::from_str::<serde_json::Value>(text) {
        Ok(v) => Some((v.get("id").and_then(serde_json::Value::as_i64), v.get("result").is_some(), v.get("error").is_some())),
        Err(_) => None,
    }
}

/// What `text` parses to (with `serde_json`): the value written back as
/// compact JSON text, and whether it is an object; `None` when it is not
/// JSON.
pub uninterp spec fn json_parsed(text: Seq<char>) -> Option<(Seq<char>, bool)>;

/// `serde_json::from_str` into a `serde_json::Value`, written back as
/// compact JSON (the value's `Display`), and `serde_json::Value::is_object`.
#[verifier::external_body]
pub(crate) fn json_parse(text: &str) -> (r: Option<(String, bool)>)
    ensures
        r matches Some(p) ==> json_parsed(text@) == Some((p.0@, p.1)),
        r is None ==> json_parsed(text@) is None,
{
    match serde_json::from_str::<serde_json::Value>(text) {
        Ok(v) => Some((v.to_string(), v.is_object())),
        Err(_) => None,
    }
}

} // verus!
