use vstd::prelude::*;

verus! {

#[verifier::external_type_specification]
#[verifier::external_body]
pub struct ExValue(serde_json::Value);

/// A structured log payload: the library's own model of parsed structured
/// data, so that flattening and column analysis are plain functions over it.
pub enum JsonValue {
    Null,
    Bool(bool),
    /// A number, kept as its canonical decimal rendering.
    Num(String),
    Str(String),
    Arr(Vec<JsonValue>),
    Obj(Vec<(String, JsonValue)>),
}

/// The structured value behind a text, when the text is well-formed
/// structured data. Names the result of `serde_json::from_str`, which
/// depends on the text alone, carried over into the library's value model.
pub uninterp spec fn parsed_json(text: Seq<char>) -> Option<JsonValue>;

/// Relies on `serde_json::Value`'s variants: rebuilds a parsed value in the
/// library's own model, one variant at a time; object fields arrive in the
/// key order the parser keeps, and numbers keep their canonical rendering.
#[verifier::external_body]
fn from_serde(v: &serde_json::Value) -> JsonValue {
    match v {
        serde_json::Value::Null => JsonValue::Null,
        serde_json::Value::Bool(b) => JsonValue::Bool(*b),
        serde_json::Value::Number(n) => JsonValue::Num(n.to_string()),
        serde_json::Value::String(s) => JsonValue::Str(s.clone()),
        serde_json::Value::Array(a) => JsonValue::Arr(a.iter().map(from_serde).collect()),
        serde_json::Value::Object(m) => JsonValue::Obj(
            m.iter().map(|(k, x)| (k.clone(), from_serde(x))).collect(),
        ),
    }
}

/// Relies on `serde_json::from_str`: whether a text parses as structured
/// data, and as what value, is a function of the text alone.
#[verifier::external_body]
pub fn parse_json(text: &str) -> (r: Option<JsonValue>)
    ensures
        r == parsed_json(text@),
{
    match serde_json::from_str::<serde_json::Value>(text) {
        Ok(v) => Some(from_serde(&v)),
        Err(_) => None,
    }
}

/// The compact one-line rendering of a structured value. Names the result of
/// `serde_json::to_string`, a function of the value alone.
pub uninterp spec fn compact_text_of(v: JsonValue) -> Seq<char>;

/// Relies on `serde_json::Value` construction: rebuilds the outside value
/// from the library's model, one variant at a time. A number text that no
/// longer reads back as a number becomes null.
#[verifier::external_body]
fn to_serde(v: &JsonValue) -> serde_json::Value {
    match v {
        JsonValue::Null => serde_json::Value::Null,
        JsonValue::Bool(b) => serde_json::Value::Bool(*b),
        JsonValue::Num(s) => match s.parse::<serde_json::Number>() {
            Ok(n) => serde_json::Value::Number(n),
            Err(_) => serde_json::Value::Null,
        },
        JsonValue::Str(s) => serde_json::Value::String(s.clone()),
        JsonValue::Arr(a) => serde_json::Value::Array(a.iter().map(to_serde).collect()),
        JsonValue::Obj(m) => serde_json::Value::Object(
            m.iter().map(|(k, x)| (k.clone(), to_serde(x))).collect(),
        ),
    }
}

/// Relies on `serde_json::to_string`: the compact rendering is deterministic
/// in the value.
#[verifier::external_body]
pub(crate) fn compact_json_text(v: &JsonValue) -> (r: String)
    ensures
        r@ == compact_text_of(*v),
{
    serde_json::to_string(&to_serde(v)).unwrap_or_default()
}

/// What a value renders as when it stands alone: strings stand bare, numbers
/// keep their decimal rendering, booleans render as words, null renders
/// empty, and a container renders as its compact one-line serialization.
/// Flattening only reaches the scalar cases; containers flatten into their
/// parts instead.
pub open spec fn scalar_string(v: JsonValue) -> Seq<char> {
    match v {
        JsonValue::Null => Seq::empty(),
        JsonValue::Bool(b) => if b {
            seq!['t', 'r', 'u', 'e']
        } else {
            seq!['f', 'a', 'l', 's', 'e']
        },
        JsonValue::Num(s) => s@,
        JsonValue::Str(s) => s@,
        JsonValue::Arr(_) => compact_text_of(v),
        JsonValue::Obj(_) => compact_text_of(v),
    }
}

/// Renders one value for display.
pub fn render_scalar(v: &JsonValue) -> (r: String)
    ensures
        r@ == scalar_string(*v),
{
    match v {
        JsonValue::Null => String::new(),
        JsonValue::Bool(b) => {
            if *b {
                proof {
                    reveal_strlit("true");
                }
                let s = String::from_str("true");
                proof {
                    assert(s@ =~= seq!['t', 'r', 'u', 'e']);
                }
                s
            } else {
                proof {
                    reveal_strlit("false");
                }
                let s = String::from_str("false");
                proof {
                    assert(s@ =~= seq!['f', 'a', 'l', 's', 'e']);
                }
                s
            }
        },
        JsonValue::Num(s) => s.clone(),
        JsonValue::Str(s) => s.clone(),
        JsonValue::Arr(_) => compact_json_text(v),
        JsonValue::Obj(_) => compact_json_text(v),
    }
}

} // verus!
