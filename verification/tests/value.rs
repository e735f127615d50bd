use json_typings::value::Kind;
use json_typings::{ObjectNode, Value};
use serde_json::Number;

#[test]
fn every_value_has_its_kind() {
    assert_eq!(Value::Null.kind(), Kind::Null);
    assert_eq!(Value::Bool(false).kind(), Kind::Bool);
    assert_eq!(Value::Number(Number::from(1)).kind(), Kind::Number);
    assert_eq!(Value::String(String::new()).kind(), Kind::String);
    assert_eq!(Value::Array(vec![]).kind(), Kind::Array);
    assert_eq!(Value::Object(vec![]).kind(), Kind::Object);
}

#[test]
fn record_indices_are_ordered_by_their_number() {
    assert!(ObjectNode(1) < ObjectNode(2));
    assert_eq!(ObjectNode(3).0, 3);
}
