use jsocks::json_value::{JsonBool, JsonValue};
use jsocks::number::JsonNumber;
use jsocks::object::JsonObject;
use jsocks::parse_json;
use jsocks::pieces::Piece;

fn num(text: &str) -> JsonValue {
    JsonValue::Number(JsonNumber::new(text).unwrap())
}

fn text(s: &str) -> Piece {
    Piece::Text(s.to_string())
}

fn number(s: &str) -> Piece {
    Piece::Number(JsonNumber::new(s).unwrap())
}

fn written(value: &JsonValue, show: fn(&str) -> String) -> String {
    let mut out = String::new();
    for piece in value.pieces() {
        match piece {
            Piece::Text(s) => out.push_str(&s),
            Piece::Number(n) => out.push_str(&show(n.as_str())),
        }
    }
    out
}

fn as_double(literal: &str) -> String {
    format!("{}", literal.parse::<f64>().unwrap())
}

#[test]
fn scalars_are_one_piece() {
    assert_eq!(JsonValue::Null.pieces(), vec![text("null")]);
    assert_eq!(JsonValue::JsonBool(JsonBool::True).pieces(), vec![text("true")]);
    assert_eq!(JsonValue::JsonBool(JsonBool::False).pieces(), vec![text("false")]);
    assert_eq!(JsonValue::String("a 1".to_string()).pieces(), vec![text("\"a 1\"")]);
    assert_eq!(num("1.50").pieces(), vec![number("1.50")]);
}

#[test]
fn containers_in_pieces() {
    assert_eq!(JsonValue::Array(vec![]).pieces(), vec![text("["), text("]")]);
    assert_eq!(JsonValue::Object(JsonObject::new()).pieces(), vec![text("{"), text("}")]);
    assert_eq!(
        JsonValue::Array(vec![num("1"), JsonValue::Null, num("2e3")]).pieces(),
        vec![
            text("["),
            number("1"),
            text(", "),
            text("null"),
            text(", "),
            number("2e3"),
            text("]"),
        ]
    );
    let mut o = JsonObject::new();
    o.insert("k".to_string(), num("7"));
    o.insert("l".to_string(), JsonValue::Array(vec![num("8")]));
    assert_eq!(
        JsonValue::Object(o).pieces(),
        vec![
            text("{"),
            text("\"k\" : "),
            number("7"),
            text(", "),
            text("\"l\" : "),
            text("["),
            number("8"),
            text("]"),
            text("}"),
        ]
    );
}

#[test]
fn pieces_with_literals_are_the_dump() {
    for source in [
        "null",
        "12.50",
        "[]",
        "{}",
        "[1, [2, {\"a\" : [3e1, \"x\"], \"b\" : {}}], \"4\", true]",
        "{\"a\" : {\"b\" : {\"c\" : [1., 2.0, 3e0]}}, \"d\" : false}",
    ] {
        let v = parse_json(source.to_string()).unwrap();
        assert_eq!(written(&v, |literal| literal.to_string()), v.dump());
        assert_eq!(v.dump(), source);
    }
}

#[test]
fn numbers_written_as_doubles() {
    let v = parse_json("[1e10, 1.50, 007, 1e999, {\"n\" : 2.5E3}, \"1e3\"]".to_string()).unwrap();
    assert_eq!(
        written(&v, as_double),
        "[10000000000, 1.5, 7, inf, {\"n\" : 2500}, \"1e3\"]"
    );
    assert_eq!(v.dump(), "[1e10, 1.50, 007, 1e999, {\"n\" : 2.5E3}, \"1e3\"]");
}
