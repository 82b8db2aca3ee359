use pi_rs_host::json::{JsonNumber, JsonObject, JsonValue};
use pi_rs_host::schema::validate_tool_arguments;

fn s(text: &str) -> JsonValue {
    JsonValue::String(text.to_string())
}

fn n(value: u64) -> JsonValue {
    JsonValue::Number(JsonNumber::PosInt(value))
}

fn arr(values: Vec<JsonValue>) -> JsonValue {
    JsonValue::Array(values)
}

fn obj(entries: Vec<(&str, JsonValue)>) -> JsonValue {
    let mut o = JsonObject::new();
    for (k, v) in entries {
        o.insert(k, v);
    }
    JsonValue::Object(o)
}

fn render(v: &JsonValue) -> String {
    match v {
        JsonValue::Null => "null".to_string(),
        JsonValue::Bool(b) => b.to_string(),
        JsonValue::Number(JsonNumber::PosInt(x)) => x.to_string(),
        JsonValue::Number(JsonNumber::NegInt(x)) => x.to_string(),
        JsonValue::Number(JsonNumber::Float(t)) => t.clone(),
        JsonValue::String(t) => format!("{t:?}"),
        JsonValue::Array(a) => format!("[{}]", a.iter().map(render).collect::<Vec<_>>().join(",")),
        JsonValue::Object(o) => {
            let mut parts: Vec<String> = (0..o.entry_count())
                .map(|i| {
                    let (k, v) = o.entry_at(i);
                    format!("{k:?}:{}", render(v))
                })
                .collect();
            parts.sort();
            format!("{{{}}}", parts.join(","))
        }
    }
}

fn file_schema() -> JsonValue {
    obj(vec![
        ("type", s("object")),
        ("required", arr(vec![s("path"), s("content")])),
        ("properties", obj(vec![("path", obj(vec![("type", s("string"))])), ("content", obj(vec![("type", s("string"))]))])),
    ])
}

#[test]
fn missing_required_properties_are_one_error() {
    let err = validate_tool_arguments("write", &file_schema(), &obj(vec![]), "{}").unwrap_err();
    assert_eq!(err.details, "  - path: must have required properties path, content");
    assert_eq!(
        err.message(),
        "Validation failed for tool \"write\":\n  - path: must have required properties path, content\n\nReceived arguments:\n{}"
    );
}

#[test]
fn wrong_property_type_names_its_path() {
    let err = validate_tool_arguments("write", &file_schema(), &obj(vec![("path", n(5)), ("content", s("x"))]), "r").unwrap_err();
    assert_eq!(err.details, "  - path: must be string");
    assert_eq!(err.tool, "write");
    assert_eq!(err.received, "r");
}

#[test]
fn coercions_apply_to_single_types() {
    let schema = obj(vec![
        ("type", s("object")),
        ("properties", obj(vec![
            ("count", obj(vec![("type", s("number"))])),
            ("flag", obj(vec![("type", s("boolean"))])),
            ("other", obj(vec![("type", s("boolean"))])),
            ("name", obj(vec![("type", s("string"))])),
            ("list", obj(vec![("type", s("array"))])),
            ("nothing", obj(vec![("type", s("null"))])),
        ])),
    ]);
    let args = obj(vec![
        ("count", s("12")),
        ("flag", s("true")),
        ("other", n(0)),
        ("name", JsonValue::Bool(false)),
        ("list", obj(vec![])),
        ("nothing", s("")),
    ]);
    let value = validate_tool_arguments("t", &schema, &args, "").ok().unwrap();
    assert_eq!(
        render(&value),
        render(&obj(vec![
            ("count", n(12)),
            ("flag", JsonValue::Bool(true)),
            ("other", JsonValue::Bool(false)),
            ("name", s("false")),
            ("list", arr(vec![])),
            ("nothing", JsonValue::Null),
        ]))
    );
}

#[test]
fn array_items_are_checked_by_index() {
    let schema = obj(vec![("type", s("array")), ("items", obj(vec![("type", s("integer"))]))]);
    let err = validate_tool_arguments("t", &schema, &arr(vec![s("1"), n(2), s("x")]), "").unwrap_err();
    assert_eq!(err.details, "  - 2: must be integer");
    let ok = validate_tool_arguments("t", &schema, &arr(vec![s("1"), n(2), s("-3")]), "").ok().unwrap();
    assert_eq!(render(&ok), "[1,2,-3]");
}

#[test]
fn type_unions_and_nested_paths() {
    let schema = obj(vec![("type", arr(vec![s("string"), s("null")]))]);
    let err = validate_tool_arguments("t", &schema, &n(5), "").unwrap_err();
    assert_eq!(err.details, "  - root: must be either string or null");
    let nested = obj(vec![(
        "properties",
        obj(vec![("a", obj(vec![("properties", obj(vec![("b", obj(vec![("type", s("string"))]))]))]))]),
    )]);
    let err = validate_tool_arguments("t", &nested, &obj(vec![("a", obj(vec![("b", n(1))]))]), "").unwrap_err();
    assert_eq!(err.details, "  - a.b: must be string");
    assert!(validate_tool_arguments("t", &s("not a schema"), &n(1), "").is_ok());
}
