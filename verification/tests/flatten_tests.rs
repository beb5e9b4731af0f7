use cwl::flatten::{flatten_json_to_columns, FlatRow};
use cwl::json::{parse_json, render_scalar, JsonValue};

fn entries(row: &FlatRow) -> Vec<(String, String)> {
    let mut out = Vec::new();
    let mut i = 0;
    while i < row.len() {
        out.push((row.key_at(i).clone(), row.val_at(i).clone()));
        i += 1;
    }
    out
}

fn pair(k: &str, v: &str) -> (String, String) {
    (k.to_string(), v.to_string())
}

#[test]
fn nested_object_paths_are_dotted_and_sorted() {
    let v = JsonValue::Obj(vec![
        ("b".to_string(), JsonValue::Num("1".to_string())),
        (
            "a".to_string(),
            JsonValue::Obj(vec![("c".to_string(), JsonValue::Str("x".to_string()))]),
        ),
    ]);
    let row = flatten_json_to_columns(&v, "");
    assert_eq!(entries(&row), vec![pair("a.c", "x"), pair("b", "1")]);
    assert_eq!(row.get("a.c").map(|s| s.as_str()), Some("x"));
    assert_eq!(row.get("missing"), None);
}

#[test]
fn array_elements_are_indexed() {
    let v = JsonValue::Arr(vec![
        JsonValue::Null,
        JsonValue::Bool(true),
        JsonValue::Num("2.5".to_string()),
    ]);
    let row = flatten_json_to_columns(&v, "r");
    assert_eq!(
        entries(&row),
        vec![pair("r[0]", ""), pair("r[1]", "true"), pair("r[2]", "2.5")]
    );
}

#[test]
fn bare_scalar_lands_at_the_prefix() {
    let v = JsonValue::Str("hi".to_string());
    let row = flatten_json_to_columns(&v, "p");
    assert_eq!(entries(&row), vec![pair("p", "hi")]);
}

#[test]
fn flattening_is_deterministic() {
    let v = JsonValue::Obj(vec![
        (
            "x".to_string(),
            JsonValue::Arr(vec![JsonValue::Bool(false), JsonValue::Null]),
        ),
        ("y".to_string(), JsonValue::Str("v".to_string())),
    ]);
    let first = entries(&flatten_json_to_columns(&v, ""));
    let second = entries(&flatten_json_to_columns(&v, ""));
    assert_eq!(first, second);
}

#[test]
fn parsed_payload_flattens_by_path() {
    let v = parse_json("{\"lvl\":\"error\",\"ctx\":{\"code\":500}}").unwrap();
    let row = flatten_json_to_columns(&v, "");
    assert_eq!(entries(&row), vec![pair("ctx.code", "500"), pair("lvl", "error")]);
}

#[test]
fn unparsable_text_is_not_structured() {
    assert!(parse_json("plain text").is_none());
    assert!(parse_json("").is_none());
    assert!(parse_json("null").is_some());
}

#[test]
fn scalars_render_bare() {
    assert_eq!(render_scalar(&JsonValue::Null), "");
    assert_eq!(render_scalar(&JsonValue::Bool(true)), "true");
    assert_eq!(render_scalar(&JsonValue::Bool(false)), "false");
    assert_eq!(render_scalar(&JsonValue::Num("42".to_string())), "42");
    assert_eq!(render_scalar(&JsonValue::Str("s".to_string())), "s");
}

#[test]
fn containers_render_compactly_on_a_direct_call() {
    let obj = JsonValue::Obj(vec![("a".to_string(), JsonValue::Num("1".to_string()))]);
    assert_eq!(render_scalar(&obj), "{\"a\":1}");
    let arr = JsonValue::Arr(vec![JsonValue::Num("1".to_string()), JsonValue::Bool(false)]);
    assert_eq!(render_scalar(&arr), "[1,false]");
}
