use json_typings::{ItemEntry, Items, Value};
use serde_json::Number;

fn object(fields: Vec<(&str, Value)>) -> Value {
    Value::Object(fields.into_iter().map(|(key, value)| (String::from(key), value)).collect())
}

fn one() -> Value {
    Value::Number(Number::from(1))
}

fn empty() -> Value {
    Value::String(String::new())
}

#[test]
pub fn optional_entries() {
    let values = Value::Array(vec![
        object(vec![("a", Value::Bool(true)), ("b", one()), ("c", empty())]),
        object(vec![("a", Value::Bool(true)), ("c", empty())]),
    ]);
    let mut entries: Vec<_> = Items::from_value(values).entries();
    entries.sort_by(|a, b| a.key.cmp(&b.key));

    let expected = vec![
        ItemEntry {
            key: String::from("a"),
            values: vec![Value::Bool(true), Value::Bool(true)],
            optional: false,
        },
        ItemEntry {
            key: String::from("b"),
            values: vec![one()],
            optional: true,
        },
        ItemEntry {
            key: String::from("c"),
            values: vec![empty(), empty()],
            optional: false,
        },
    ];

    assert_eq!(entries, expected)
}

#[test]
fn entries_come_in_the_order_the_names_first_occur() {
    let items = Items::from(vec![
        object(vec![("z", one())]),
        object(vec![("a", one()), ("z", Value::Null)]),
        object(vec![("m", one()), ("a", Value::Bool(false))]),
    ]);
    let entries = items.entries();
    let keys: Vec<&str> = entries.iter().map(|entry| entry.key.as_str()).collect();
    assert_eq!(keys, vec!["z", "a", "m"]);
    assert_eq!(entries[0].values, vec![one(), Value::Null]);
    assert_eq!(entries[1].values, vec![one(), Value::Bool(false)]);
    assert!(entries[0].optional);
    assert!(entries[1].optional);
    assert!(entries[2].optional);
}

#[test]
fn a_field_that_is_null_is_not_missing() {
    let items = Items::from(vec![object(vec![("a", Value::Null)]), object(vec![("a", one())])]);
    let entries = items.entries();
    assert_eq!(entries.len(), 1);
    assert!(!entries[0].optional);
}

#[test]
fn samples_that_are_no_objects_are_passed_over() {
    let items = Items::from(vec![one(), object(vec![("a", one())]), Value::Array(vec![]), Value::Null]);
    let entries = items.entries();
    assert_eq!(entries.len(), 1);
    assert_eq!(entries[0].key, "a");
    assert_eq!(entries[0].values, vec![one()]);
    assert!(!entries[0].optional);
}

#[test]
fn no_samples_no_entries() {
    assert_eq!(Items::new().entries(), vec![]);
    assert_eq!(Items::from(vec![Value::Bool(true)]).entries(), vec![]);
}

#[test]
fn a_single_value_is_a_batch_of_one() {
    assert_eq!(Items::from_value(one()), Items::from(vec![one()]));
    assert_eq!(Items::from_value(Value::Array(vec![one(), one()])), Items::from(vec![one(), one()]));
    assert_eq!(Items::from_value(Value::Array(vec![])), Items::new());
}
