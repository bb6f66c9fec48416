//! A JSON value as plain data, decoded by serde_json.

use vstd::prelude::*;

verus! {

/// A decoded JSON value. Numbers keep the text that serde_json writes for
/// them; strings are held as characters.
#[derive(Debug)]
pub enum JsonValue {
    Null,
    Bool(bool),
    Number(Vec<char>),
    Str(Vec<char>),
    Array(Vec<JsonValue>),
    Object(Vec<(Vec<char>, JsonValue)>),
}

/// The value that serde_json decodes from a text, or none when the text is
/// not one JSON value.
pub uninterp spec fn json_of_text(s: Seq<char>) -> Option<JsonValue>;

#[verifier::external_type_specification]
#[verifier::external_body]
pub struct ExValue(serde_json::Value);

/// Relies on serde_json::from_str::<serde_json::Value>: the text decoded as
/// one JSON value, or an error when it is not valid JSON.
#[verifier::external_body]
pub(crate) fn decode_json(text: &Vec<char>) -> (r: Option<JsonValue>)
    ensures
        r == json_of_text(text@),
{
    let s: String = text.iter().collect();
    serde_json::from_str::<serde_json::Value>(&s).ok().map(JsonValue::from_serde)
}

impl JsonValue {
    /// The one-for-one conversion that `decode_json` applies to what
    /// serde_json decoded; a number becomes the text of its `Display`.
    #[verifier::external_body]
    fn from_serde(v: serde_json::Value) -> JsonValue {
        match v {
            serde_json::Value::Null => JsonValue::Null,
            serde_json::Value::Bool(b) => JsonValue::Bool(b),
            serde_json::Value::Number(n) => JsonValue::Number(n.to_string().chars().collect()),
            serde_json::Value::String(s) => JsonValue::Str(s.chars().collect()),
            serde_json::Value::Array(a) => JsonValue::Array(a.into_iter().map(JsonValue::from_serde).collect()),
            serde_json::Value::Object(m) => JsonValue::Object(
                m.into_iter().map(|(k, x)| (k.chars().collect(), JsonValue::from_serde(x))).collect(),
            ),
        }
    }

    /// The JSON value that a text holds, or none.
    pub fn parse(text: &str) -> (r: Option<JsonValue>)
        ensures
            r == json_of_text(text@),
    {
        let chars = crate::text::chars_of(text);
        decode_json(&chars)
    }
}

} // verus!
