use jsocks::json_value::{JsonBool, JsonValue};
use jsocks::lexer::{LexError, LexErrorKind, Lexer};
use jsocks::number::JsonNumber;
use jsocks::object::JsonObject;
use jsocks::parser::{JsonParseError, ParseErrorKind, Parser};
use jsocks::{parse_json, JsonError};

fn num(text: &str) -> JsonValue {
    JsonValue::Number(JsonNumber::new(text).unwrap())
}

fn s(text: &str) -> JsonValue {
    JsonValue::String(text.to_string())
}

fn parse(text: &str) -> Result<JsonValue, JsonError> {
    parse_json(text.to_string())
}

fn sample() -> JsonValue {
    let mut inner = JsonObject::new();
    inner.insert("b".to_string(), JsonValue::Array(vec![num("1"), num("2.50"), num("3e7")]));
    inner.insert("a".to_string(), s("with \\ and \n and {[,:]}"));
    inner.insert("".to_string(), s(""));
    let mut outer = JsonObject::new();
    outer.insert("z".to_string(), JsonValue::Object(inner));
    outer.insert("flags".to_string(), JsonValue::Array(vec![
        JsonValue::JsonBool(JsonBool::True),
        JsonValue::JsonBool(JsonBool::False),
        JsonValue::Null,
    ]));
    outer.insert("empty".to_string(), JsonValue::Array(vec![JsonValue::Object(JsonObject::new())]));
    JsonValue::Object(outer)
}

#[test]
fn the_text_of_a_value_reads_back_as_the_value() {
    let v = sample();
    let text = v.dump();
    assert_eq!(
        text,
        "{\"z\" : {\"b\" : [1, 2.50, 3e7], \"a\" : \"with \\ and \n and {[,:]}\", \"\" : \"\"}, \
         \"flags\" : [true, false, null], \"empty\" : [{}]}"
    );
    let back = parse(&text).unwrap();
    assert_eq!(back, v);
    // equality of objects does not look at the order of the keys; the text does
    assert_eq!(back.dump(), text);
}

#[test]
fn scalars_read_back() {
    for v in [
        JsonValue::Null,
        JsonValue::JsonBool(JsonBool::True),
        JsonValue::JsonBool(JsonBool::False),
        s(""),
        s("text"),
        num("0"),
        num("1.e5"),
    ] {
        assert_eq!(parse(&v.dump()).unwrap(), v);
    }
}

#[test]
fn a_quote_in_a_string_does_not_read_back() {
    let v = s("a\"b");
    assert_eq!(v.dump(), "\"a\"b\"");
    assert_eq!(
        parse(&v.dump()),
        Err(JsonError::Lex(LexError { kind: LexErrorKind::UnknownKeyword, position: 3 }))
    );
}

#[test]
fn five_levels_of_nesting_round_trip() {
    let v = parse("[[[[[1]]]]]").unwrap();
    let one = JsonValue::Array(vec![num("1")]);
    let two = JsonValue::Array(vec![one]);
    let three = JsonValue::Array(vec![two]);
    let four = JsonValue::Array(vec![three]);
    assert_eq!(v, JsonValue::Array(vec![four]));
    assert_eq!(v.dump(), "[[[[[1]]]]]");
    assert_eq!(parse(&v.dump()).unwrap(), v);
}

#[test]
fn thousands_of_brackets_are_a_defined_error() {
    let text = format!("{}{}", "[".repeat(4000), "]".repeat(4000));
    assert_eq!(
        parse(&text),
        Err(JsonError::Parse(JsonParseError { kind: ParseErrorKind::TooDeep, location: 128 }))
    );
}

#[test]
fn parsing_twice_yields_the_same() {
    for text in ["{\"a\": [1, 2, {\"b\": null}]}", "[1, 2", "\"open", "{\"a\":1,\"a\":2}"] {
        assert_eq!(parse(text), parse(text));
    }
}

#[test]
fn empty_containers() {
    assert_eq!(parse("{}").unwrap(), JsonValue::Object(JsonObject::new()));
    assert_eq!(parse("[]").unwrap(), JsonValue::Array(vec![]));
    assert_eq!(parse("{}").unwrap().dump(), "{}");
    assert_eq!(parse("[]").unwrap().dump(), "[]");
    assert_eq!(parse(" { } ").unwrap().dump(), "{}");
}

#[test]
fn duplicate_keys_last_write_wins() {
    let v = parse("{\"a\":1,\"a\":2}").unwrap();
    let mut o = JsonObject::new();
    o.insert("a".to_string(), num("2"));
    assert_eq!(v, JsonValue::Object(o));
}

#[test]
fn expected_value_is_reported_behind_the_colon() {
    assert_eq!(
        parse("{\"a\":}"),
        Err(JsonError::Parse(JsonParseError { kind: ParseErrorKind::ExpectedValue, location: 5 }))
    );
}

#[test]
fn unterminated_string() {
    assert_eq!(
        parse("{\"a\": \"b"),
        Err(JsonError::Lex(LexError { kind: LexErrorKind::UnterminatedString, position: 6 }))
    );
}

#[test]
fn number_forms() {
    for (text, value) in [("1", 1.0), ("1.5", 1.5), ("1e10", 1e10), ("1.5E3", 1.5e3)] {
        match parse(text).unwrap() {
            JsonValue::Number(n) => {
                assert_eq!(n.as_str(), text);
                assert_eq!(n.as_str().parse::<f64>(), Ok(value));
            }
            other => panic!("no number: {:?}", other),
        }
    }
    assert_eq!(
        parse("1.2.3"),
        Err(JsonError::Lex(LexError { kind: LexErrorKind::MalformedNumber, position: 0 }))
    );
}

#[test]
fn a_sign_in_the_exponent_ends_the_number() {
    assert_eq!(
        parse("1.5E-3"),
        Err(JsonError::Lex(LexError { kind: LexErrorKind::MalformedNumber, position: 0 }))
    );
}

#[test]
fn a_lexical_error_comes_before_any_syntax_error() {
    assert_eq!(
        parse("[1 2 #"),
        Err(JsonError::Lex(LexError { kind: LexErrorKind::UnexpectedCharacter, position: 5 }))
    );
}

struct Dice(u64);

impl Dice {
    fn roll(&mut self, sides: u64) -> u64 {
        self.0 = self.0.wrapping_mul(6364136223846793005).wrapping_add(1442695040888963407);
        (self.0 >> 33) % sides
    }

    fn text(&mut self) -> String {
        let alphabet = ['a', ' ', '\\', '{', ',', ':', '1', 'e', '\n', '\u{e9}', '\'', ']'];
        let length = self.roll(5);
        (0..length).map(|_| alphabet[self.roll(12) as usize]).collect()
    }

    fn value(&mut self, depth: u64) -> JsonValue {
        let kinds = if depth == 0 { 5 } else { 7 };
        match self.roll(kinds) {
            0 => JsonValue::Null,
            1 => JsonValue::JsonBool(JsonBool::True),
            2 => JsonValue::JsonBool(JsonBool::False),
            3 => s(&self.text()),
            4 => {
                let literals = ["0", "12", "1.5", "3.", "2e8", "7.25E1", "00.10"];
                num(literals[self.roll(7) as usize])
            }
            5 => {
                let length = self.roll(4);
                JsonValue::Array((0..length).map(|_| self.value(depth - 1)).collect())
            }
            _ => {
                let mut o = JsonObject::new();
                for _ in 0..self.roll(4) {
                    let key = self.text();
                    let value = self.value(depth - 1);
                    o.insert(key, value);
                }
                JsonValue::Object(o)
            }
        }
    }
}

#[test]
fn many_values_read_back() {
    let mut dice = Dice(2024);
    for _ in 0..2000 {
        let v = dice.value(4);
        let text = v.dump();
        let back = parse(&text).unwrap();
        assert_eq!(back, v, "{}", text);
        assert_eq!(back.dump(), text);
    }
}

#[test]
fn what_was_read_reads_back() {
    for text in [
        "{\"a\":1,\"b\":[],\"a\":{\"x\":\"\",\"x\":null}}",
        " [ 1 , [ ] , { } , \"\" ] ",
        "\"\u{4eac}\"",
        "[[[[[1]]]]]",
    ] {
        let v = parse(text).unwrap();
        assert_eq!(parse(&v.dump()).unwrap(), v);
        assert_eq!(parse(&v.dump()).unwrap().dump(), v.dump());
    }
}

#[test]
fn well_formed_values_are_told_apart() {
    assert!(sample().reads_back(3));
    assert!(!sample().reads_back(2));
    assert!(JsonValue::Null.reads_back(0));
    assert!(num("1.5").reads_back(0));
    assert!(s("a\\b\n").reads_back(0));
    assert!(!s("a\"b").reads_back(5));
    assert!(!JsonValue::Array(vec![]).reads_back(0));
    assert!(JsonValue::Array(vec![]).reads_back(1));
    assert!(!JsonValue::Object(JsonObject::new()).reads_back(0));
    assert!(!JsonValue::Array(vec![num("1"), s("\"")]).reads_back(5));
    let mut o = JsonObject::new();
    o.insert("a\"".to_string(), JsonValue::Null);
    assert!(!JsonValue::Object(o).reads_back(5));
    let mut o = JsonObject::new();
    o.insert("a".to_string(), JsonValue::Array(vec![s("\"")]));
    assert!(!JsonValue::Object(o).reads_back(5));
    let mut o = JsonObject::new();
    o.insert("a".to_string(), JsonValue::Array(vec![JsonValue::Array(vec![])]));
    assert!(JsonValue::Object(o).reads_back(3));
}

#[test]
fn what_is_told_to_read_back_does() {
    let mut dice = Dice(7);
    let mut told = 0;
    for _ in 0..2000 {
        let mut v = dice.value(3);
        if dice.roll(3) == 0 {
            v = JsonValue::Array(vec![v, s("say \"hi\"")]);
        }
        for depth in [2, 4] {
            if v.reads_back(depth) {
                told += 1;
                let tokens = Lexer::new(v.dump()).lex().unwrap();
                assert_eq!(Parser::with_max_depth(tokens, depth).parse().unwrap(), v);
            }
        }
    }
    assert!(told > 500);
}
