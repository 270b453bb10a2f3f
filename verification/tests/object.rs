use jsocks::json_value::JsonValue;
use jsocks::object::JsonObject;

fn s(text: &str) -> JsonValue {
    JsonValue::String(text.to_string())
}

#[test]
fn a_new_object_is_empty() {
    let o = JsonObject::new();
    assert_eq!(o.len(), 0);
    assert!(o.get_index(0).is_none());
}

#[test]
fn members_keep_the_order_of_insertion() {
    let mut o = JsonObject::new();
    o.insert("b".to_string(), s("1"));
    o.insert("a".to_string(), s("2"));
    o.insert("c".to_string(), s("3"));
    assert_eq!(o.len(), 3);
    assert_eq!(o.get_index(0), Some((&"b".to_string(), &s("1"))));
    assert_eq!(o.get_index(1), Some((&"a".to_string(), &s("2"))));
    assert_eq!(o.get_index(2), Some((&"c".to_string(), &s("3"))));
    assert_eq!(o.get_index(3), None);
}

#[test]
fn a_key_that_is_there_keeps_its_place_and_takes_the_new_value() {
    let mut o = JsonObject::new();
    o.insert("a".to_string(), s("1"));
    o.insert("b".to_string(), s("2"));
    o.insert("a".to_string(), s("3"));
    assert_eq!(o.len(), 2);
    assert_eq!(o.get_index(0), Some((&"a".to_string(), &s("3"))));
    assert_eq!(o.get_index(1), Some((&"b".to_string(), &s("2"))));
}

#[test]
fn the_empty_key_is_a_key() {
    let mut o = JsonObject::new();
    o.insert(String::new(), JsonValue::Null);
    o.insert(String::new(), s("x"));
    assert_eq!(o.len(), 1);
    assert_eq!(o.get_index(0), Some((&String::new(), &s("x"))));
}
