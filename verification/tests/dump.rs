use jsocks::json_value::{JsonBool, JsonValue};
use jsocks::number::JsonNumber;
use jsocks::object::JsonObject;

fn num(text: &str) -> JsonValue {
    JsonValue::Number(JsonNumber::new(text).unwrap())
}

fn s(text: &str) -> JsonValue {
    JsonValue::String(text.to_string())
}

#[test]
fn scalars() {
    assert_eq!(JsonValue::Null.dump(), "null");
    assert_eq!(JsonValue::JsonBool(JsonBool::True).dump(), "true");
    assert_eq!(JsonValue::JsonBool(JsonBool::False).dump(), "false");
    assert_eq!(s("abc").dump(), "\"abc\"");
    assert_eq!(s("").dump(), "\"\"");
    assert_eq!(num("1.5e3").dump(), "1.5e3");
}

#[test]
fn strings_are_not_escaped() {
    assert_eq!(s("a\"b\\c\nd").dump(), "\"a\"b\\c\nd\"");
}

#[test]
fn arrays() {
    assert_eq!(JsonValue::Array(vec![]).dump(), "[]");
    assert_eq!(JsonValue::Array(vec![num("1")]).dump(), "[1]");
    assert_eq!(
        JsonValue::Array(vec![num("1"), s("x"), JsonValue::Null, JsonValue::Array(vec![])]).dump(),
        "[1, \"x\", null, []]"
    );
}

#[test]
fn objects() {
    assert_eq!(JsonValue::Object(JsonObject::new()).dump(), "{}");
    let mut o = JsonObject::new();
    o.insert("k".to_string(), num("1"));
    assert_eq!(JsonValue::Object(o).dump(), "{\"k\" : 1}");
    let mut o = JsonObject::new();
    o.insert("z".to_string(), num("1"));
    o.insert("a".to_string(), JsonValue::Array(vec![JsonValue::JsonBool(JsonBool::True)]));
    o.insert("".to_string(), JsonValue::Object(JsonObject::new()));
    assert_eq!(JsonValue::Object(o).dump(), "{\"z\" : 1, \"a\" : [true], \"\" : {}}");
}

#[test]
fn nested_containers() {
    let mut inner = JsonObject::new();
    inner.insert("x".to_string(), JsonValue::Array(vec![num("1"), num("2")]));
    let mut outer = JsonObject::new();
    outer.insert("in".to_string(), JsonValue::Object(inner));
    outer.insert("n".to_string(), JsonValue::Null);
    let v = JsonValue::Array(vec![
        JsonValue::Object(outer),
        JsonValue::Array(vec![JsonValue::Array(vec![])]),
    ]);
    assert_eq!(v.dump(), "[{\"in\" : {\"x\" : [1, 2]}, \"n\" : null}, [[]]]");
}
