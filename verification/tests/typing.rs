use json_typings::regex::{number, NumberPattern};
use json_typings::tree::render_in_order;
use json_typings::{Items, Literal, Settings, Strategy, Typing, TypingError, TypingNode, Value};
use petgraph::graph::NodeIndex;
use serde_json::Number;

fn string(text: &str) -> Value {
    Value::String(String::from(text))
}

fn num(n: i64) -> Value {
    Value::Number(Number::from(n))
}

fn object(fields: Vec<(&str, Value)>) -> Value {
    Value::Object(fields.into_iter().map(|(key, value)| (String::from(key), value)).collect())
}

fn typing(name: &str, samples: Vec<Value>) -> Typing {
    Typing::from_items(name, Items::from(samples)).unwrap()
}

fn render(name: &str, samples: Vec<Value>) -> String {
    typing(name, samples).as_string(Strategy::Tree, &Settings::new()).unwrap()
}

fn nodes(typing: &Typing) -> Vec<TypingNode> {
    typing.graph().node_indices().map(|index| typing.graph()[index].clone()).collect()
}

fn edges(typing: &Typing) -> Vec<(usize, usize)> {
    typing
        .graph()
        .edge_indices()
        .map(|edge| typing.graph().edge_endpoints(edge).unwrap())
        .map(|(from, to)| (from.index(), to.index()))
        .collect()
}

fn slot(key: &str, optional: bool, object_node: usize) -> TypingNode {
    TypingNode::ObjectEntry { key: String::from(key), optional, object_node }
}

fn sample_records() -> Vec<Value> {
    vec![
        object(vec![
            ("id", string("id_1")),
            ("user", object(vec![("name", string("ann")), ("age", num(3))])),
            ("tags", Value::Array(vec![string("x"), num(1)])),
            ("mixed", num(1)),
        ]),
        object(vec![
            ("id", string("id_1")),
            ("user", object(vec![("name", string("bob"))])),
            ("tags", Value::Array(vec![])),
            ("mixed", string("one")),
        ]),
        object(vec![("id", string("id_2")), ("mixed", Value::Null)]),
    ]
}

#[test]
fn end_to_end_example() {
    let numbers = || Value::Array(vec![num(1), num(2), num(3), num(4), num(5)]);
    let samples = vec![
        object(vec![("a", Value::Bool(true)), ("b", num(1)), ("c", numbers())]),
        object(vec![("a", Value::Bool(true)), ("c", numbers())]),
    ];
    assert_eq!(
        render("Example", samples),
        [
            "export interface Example {",
            "    a: boolean;",
            "    b?: number;",
            "    c: number;",
            "}",
            "",
        ]
        .join("\n")
    );
}

#[test]
fn no_samples_give_an_empty_record() {
    assert_eq!(render("Empty", vec![]), "export interface Empty {\n}\n");
    assert_eq!(render("empty_one", vec![num(1), Value::Null]), "export interface EmptyOne {\n}\n");
    assert_eq!(render("Empty", vec![object(vec![])]), "export interface Empty {\n}\n");
}

#[test]
fn nested_records_and_unions() {
    assert_eq!(
        render("root", sample_records()),
        [
            "export interface Root {",
            "    id: `id_${number}`;",
            "    user?: root.User;",
            "    tags?: Array<root.Tags>;",
            "    mixed: root.Mixed;",
            "}",
            "",
            "export namespace Root {",
            "    export type Mixed = number",
            "        | string",
            "        | null;",
            "",
            "    export type Tags = string",
            "        | number;",
            "",
            "    export interface User {",
            "        name: string;",
            "        age?: number;",
            "    }",
            "}",
            "",
        ]
        .join("\n")
    );
}

#[test]
fn rendering_twice_gives_the_same_text() {
    let first = typing("root", sample_records());
    let second = typing("root", sample_records());
    let settings = Settings::new();
    assert_eq!(nodes(&first), nodes(&second));
    assert_eq!(edges(&first), edges(&second));
    assert_eq!(
        first.as_string(Strategy::Tree, &settings).unwrap(),
        first.as_string(Strategy::Tree, &settings).unwrap()
    );
    assert_eq!(
        first.as_string(Strategy::Tree, &settings).unwrap(),
        second.as_string(Strategy::Tree, &settings).unwrap()
    );
}

#[test]
fn any_walk_that_takes_children_first_gives_the_same_text() {
    let typing = typing("root", sample_records());
    let settings = Settings::new();
    let descending: Vec<usize> = (0..typing.graph().node_count()).rev().collect();
    assert_eq!(
        render_in_order(&typing, &descending, &settings),
        typing.as_string(Strategy::Tree, &settings).unwrap()
    );
}

#[test]
fn the_family_strategy_is_not_available() {
    let typing = typing("root", sample_records());
    assert_eq!(typing.as_string(Strategy::Family, &Settings::new()), Err(TypingError::NotImplemented));
    assert_eq!(Strategy::Family.to_string(&typing, &Settings::new()), Err(TypingError::NotImplemented));
}

#[test]
fn a_new_typing_is_its_root_record() {
    let typing = Typing::new("some name");
    assert_eq!(typing.name(), "some name");
    assert_eq!(nodes(&typing), vec![TypingNode::Object(String::from("some name"))]);
    assert_eq!(typing.graph().edge_count(), 0);
    assert_eq!(
        typing.as_string(Strategy::Tree, &Settings::new()).unwrap(),
        "export interface SomeName {\n}\n"
    );
    assert_eq!(nodes(&typing), nodes(&self::typing("some name", vec![])));
}

#[test]
fn the_graph_of_the_example() {
    let numbers = || Value::Array(vec![num(1), num(2)]);
    let typing = typing(
        "Example",
        vec![
            object(vec![("a", Value::Bool(true)), ("b", num(1)), ("c", numbers())]),
            object(vec![("a", Value::Bool(true)), ("c", numbers())]),
        ],
    );
    assert_eq!(typing.name(), "Example");
    assert_eq!(
        nodes(&typing),
        vec![
            TypingNode::Object(String::from("Example")),
            slot("c", false, 0),
            TypingNode::Array { object_node: 0, key: String::from("c") },
            TypingNode::Number,
            slot("b", true, 0),
            TypingNode::Number,
            slot("a", false, 0),
            TypingNode::Boolean,
        ]
    );
    assert_eq!(edges(&typing), vec![(0, 1), (1, 2), (2, 3), (0, 4), (4, 5), (0, 6), (6, 7)]);
    assert!(typing.graph()[NodeIndex::new(0)].is_object());
    assert!(typing.graph()[NodeIndex::new(1)].is_object_entry());
    assert!(typing.graph()[NodeIndex::new(2)].is_array());
    assert_eq!(typing.graph()[NodeIndex::new(0)].as_object(), Some("Example"));
    assert_eq!(typing.graph()[NodeIndex::new(4)].as_object_entry(), Some(("b", true)));
    assert_eq!(typing.graph()[NodeIndex::new(3)].as_object(), None);
    assert_eq!(typing.graph()[NodeIndex::new(3)].as_object_entry(), None);
    assert!(!typing.graph()[NodeIndex::new(3)].is_array());
}

#[test]
fn values_are_typed_in_runs_of_one_kind() {
    let typing = typing(
        "T",
        vec![
            object(vec![("a", num(1))]),
            object(vec![("a", num(2))]),
            object(vec![("a", string("x"))]),
            object(vec![("a", num(3))]),
        ],
    );
    assert_eq!(
        nodes(&typing),
        vec![
            TypingNode::Object(String::from("T")),
            slot("a", false, 0),
            TypingNode::Number,
            TypingNode::String,
            TypingNode::Number,
        ]
    );
    assert_eq!(edges(&typing), vec![(0, 1), (1, 2), (1, 3), (1, 4)]);
    assert_eq!(
        typing.as_string(Strategy::Tree, &Settings::new()).unwrap(),
        [
            "export interface T {",
            "    a: T.A;",
            "}",
            "",
            "export namespace T {",
            "    export type A = number",
            "        | string",
            "        | number;",
            "}",
            "",
        ]
        .join("\n")
    );
}

#[test]
fn records_are_expanded_after_the_fields_around_them() {
    let typing = typing(
        "T",
        vec![object(vec![
            ("first", object(vec![("x", num(1))])),
            ("second", Value::Array(vec![object(vec![("y", Value::Null)])])),
        ])],
    );
    assert_eq!(
        nodes(&typing),
        vec![
            TypingNode::Object(String::from("T")),
            slot("second", false, 0),
            TypingNode::Array { object_node: 0, key: String::from("second") },
            TypingNode::Object(String::from("Second")),
            slot("first", false, 0),
            TypingNode::Object(String::from("First")),
            slot("x", false, 5),
            TypingNode::Number,
            slot("y", false, 3),
            TypingNode::Null,
        ]
    );
    assert_eq!(
        edges(&typing),
        vec![(0, 1), (1, 2), (2, 3), (0, 4), (4, 5), (5, 6), (6, 7), (3, 8), (8, 9)]
    );
}

#[test]
fn literals_are_listed_in_the_order_they_first_occur() {
    let typing = typing(
        "T",
        vec![
            object(vec![("color", string("red"))]),
            object(vec![("color", string("green"))]),
            object(vec![("color", string("red"))]),
        ],
    );
    assert_eq!(
        nodes(&typing)[2..],
        [
            TypingNode::Literal(Literal::String(String::from("red"))),
            TypingNode::Literal(Literal::String(String::from("green"))),
        ]
    );
    let mut settings = Settings::new();
    settings.string_delimiter = String::from("'");
    settings.indentation = String::from("  ");
    assert_eq!(
        typing.as_string(Strategy::Tree, &settings).unwrap(),
        [
            "export interface T {",
            "  color: T.Color;",
            "}",
            "",
            "export namespace T {",
            "  export type Color = 'green'",
            "    | 'red';",
            "}",
            "",
        ]
        .join("\n")
    );
}

#[test]
fn a_field_of_one_shape_gets_no_alias() {
    let text = render(
        "T",
        vec![
            object(vec![("a", num(1)), ("b", Value::Array(vec![Value::Bool(true)])), ("c", object(vec![]))]),
            object(vec![("a", num(2)), ("b", Value::Array(vec![Value::Bool(false)])), ("c", object(vec![]))]),
        ],
    );
    assert_eq!(
        text,
        [
            "export interface T {",
            "    a: number;",
            "    b: boolean;",
            "    c: T.C;",
            "}",
            "",
            "export namespace T {",
            "    export interface C {",
            "    }",
            "}",
            "",
        ]
        .join("\n")
    );
    assert!(!text.contains("export type"));
}

#[test]
fn an_array_without_elements_is_unknown() {
    assert_eq!(
        render("T", vec![object(vec![("a", Value::Array(vec![]))])]),
        "export interface T {\n    a: unknown;\n}\n"
    );
}

#[test]
fn an_array_of_several_shapes_is_an_array_of_their_alias() {
    assert_eq!(
        render("T", vec![object(vec![("some_list", Value::Array(vec![num(1), Value::Null, num(2)]))])]),
        [
            "export interface T {",
            "    some_list: Array<T.SomeList>;",
            "}",
            "",
            "export namespace T {",
            "    export type SomeList = number",
            "        | null",
            "        | number;",
            "}",
            "",
        ]
        .join("\n")
    );
}

#[test]
fn arrays_in_arrays_belong_to_the_same_record() {
    let typing = typing(
        "T",
        vec![object(vec![(
            "grid",
            Value::Array(vec![Value::Array(vec![num(1)]), Value::Array(vec![string("a")])]),
        )])],
    );
    assert_eq!(
        nodes(&typing),
        vec![
            TypingNode::Object(String::from("T")),
            slot("grid", false, 0),
            TypingNode::Array { object_node: 0, key: String::from("grid") },
            TypingNode::Array { object_node: 0, key: String::from("grid") },
            TypingNode::String,
            TypingNode::Number,
        ]
    );
    assert_eq!(edges(&typing), vec![(0, 1), (1, 2), (2, 3), (3, 4), (3, 5)]);
    assert_eq!(
        typing.as_string(Strategy::Tree, &Settings::new()).unwrap(),
        [
            "export interface T {",
            "    grid: Array<T.Grid>;",
            "}",
            "",
            "export namespace T {",
            "    export type Grid = number",
            "        | string;",
            "}",
            "",
        ]
        .join("\n")
    );
}

#[test]
fn sorted_records_put_required_fields_first() {
    let mut settings = Settings::new();
    settings.sort = true;
    let typing = typing(
        "T",
        vec![object(vec![("b", num(1)), ("a", num(1)), ("c", num(1))]), object(vec![("b", num(1)), ("c", num(1))])],
    );
    assert_eq!(
        typing.as_string(Strategy::Tree, &settings).unwrap(),
        "export interface T {\n    b: number;\n    c: number;\n    a?: number;\n}\n"
    );
    assert_eq!(
        typing.as_string(Strategy::Tree, &Settings::new()).unwrap(),
        "export interface T {\n    b: number;\n    a?: number;\n    c: number;\n}\n"
    );
}

#[test]
fn the_builder_takes_the_pattern_it_is_given() {
    let samples = || vec![object(vec![("id", string("id_1"))]), object(vec![("id", string("id_1"))])];
    let with = Typing::from_items_with("T", Items::from(samples()), &number().unwrap());
    assert_eq!(nodes(&with), nodes(&typing("T", samples())));
    let never = NumberPattern::compile("$^").unwrap();
    assert_eq!(never.as_string(), "$^");
    assert_eq!(NumberPattern::compile("(").err(), Some(TypingError::Pattern));
    let without = Typing::from_items_with("T", Items::from(samples()), &never);
    assert_eq!(nodes(&without)[2], TypingNode::Literal(Literal::String(String::from("id_1"))));
}

#[test]
fn many_samples_are_typed_as_few() {
    let samples: Vec<Value> = (0..3000)
        .map(|i| {
            object(vec![
                ("id", string(&format!("user-{}", i))),
                ("name", string(&format!("name {}", i % 7))),
                ("score", if i % 3 == 0 { Value::Null } else { num(i) }),
                (
                    "address",
                    object(vec![("city", string(if i % 2 == 0 { "Oslo" } else { "Rome" })), ("zip", num(i))]),
                ),
                ("tags", Value::Array((0..(i % 4)).map(|t| string(&format!("t{}", t))).collect())),
            ])
        })
        .collect();
    let typing = typing("log", samples);
    let text = typing.as_string(Strategy::Tree, &Settings::new()).unwrap();
    let head = [
            "export interface Log {",
            "    id: string;",
            "    name: `name ${number}`;",
            "    score: log.Score;",
            "    address: log.Address;",
            "    tags: `t${number}`;",
            "}",
            "",
            "export namespace Log {",
            "    export interface Address {",
            "        city: Address.City;",
            "        zip: number;",
            "    }",
            "",
            "    export namespace Address {",
            "        export type City = \"Rome\"",
            "            | \"Oslo\";",
            "    }",
            "",
            "    export type Score = null",
            "        | number",
            "        | null",
        ]
        .join("\n");
    assert_eq!(text[..head.len()], head);
    assert_eq!(text.matches("| number").count(), 1000);
    let descending: Vec<usize> = (0..typing.graph().node_count()).rev().collect();
    assert_eq!(render_in_order(&typing, &descending, &Settings::new()), text);
}

#[test]
fn a_string_with_two_numbers_gets_two_placeholders() {
    let typing = typing("Example", vec![object(vec![("s", string("a1b11"))]), object(vec![("s", string("a1b11"))])]);
    assert_eq!(
        nodes(&typing),
        vec![
            TypingNode::Object(String::from("Example")),
            slot("s", false, 0),
            TypingNode::Literal(Literal::Template(String::from("a${number}b${number}"))),
        ]
    );
    assert_eq!(edges(&typing), vec![(0, 1), (1, 2)]);
    assert_eq!(
        typing.as_string(Strategy::Tree, &Settings::new()).unwrap(),
        "export interface Example {\n    s: `a${number}b${number}`;\n}\n"
    );
}

#[test]
fn the_root_is_the_record_of_the_given_name() {
    let typing = typing("some root", sample_records());
    assert_eq!(nodes(&typing)[0], TypingNode::Object(String::from("some root")));
    assert_eq!(typing.name(), "some root");
}
