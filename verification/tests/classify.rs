use json_typings::classify::{
    advance, byte_length, classify_strings, string_shape, template, templates_of, width, StringShape,
};
use json_typings::regex::number;
use json_typings::{Literal, TypingNode, Value};

fn strings(texts: &[&str]) -> Vec<String> {
    texts.iter().map(|text| String::from(*text)).collect()
}

fn values(texts: &[&str]) -> Vec<Value> {
    texts.iter().map(|text| Value::String(String::from(*text))).collect()
}

fn literal(text: &str) -> TypingNode {
    TypingNode::Literal(Literal::String(String::from(text)))
}

fn pattern(text: &str) -> TypingNode {
    TypingNode::Literal(Literal::Template(String::from(text)))
}

#[test]
fn numbered_identifiers_collapse_to_one_template() {
    let run = values(&["id_1", "id_2", "id_10", "id_1"]);
    assert_eq!(classify_strings(&run, &number().unwrap()), vec![pattern("id_${number}")]);
}

#[test]
fn short_strings_with_a_duplicate_are_enumerated() {
    let run = values(&["red", "green", "red", "blue", "green"]);
    assert_eq!(
        classify_strings(&run, &number().unwrap()),
        vec![literal("red"), literal("green"), literal("blue")]
    );
}

#[test]
fn strings_without_a_duplicate_are_wide() {
    let run = values(&["red", "green", "blue"]);
    assert_eq!(classify_strings(&run, &number().unwrap()), vec![TypingNode::String]);
}

#[test]
fn empty_strings_do_not_count() {
    assert_eq!(classify_strings(&values(&["", ""]), &number().unwrap()), vec![TypingNode::String]);
    assert_eq!(classify_strings(&values(&["a", "", ""]), &number().unwrap()), vec![TypingNode::String]);
    assert_eq!(classify_strings(&values(&["a", "", "a"]), &number().unwrap()), vec![literal("a")]);
}

#[test]
fn long_strings_are_wide() {
    let seventeen = "abcdefghijklmnopq";
    assert_eq!(
        classify_strings(&values(&[seventeen, seventeen]), &number().unwrap()),
        vec![TypingNode::String]
    );
    let sixteen = "abcdefghijklmnop";
    assert_eq!(
        classify_strings(&values(&[sixteen, sixteen]), &number().unwrap()),
        vec![literal(sixteen)]
    );
    let thirty_two = "user_1234567890_1234567890_12345";
    assert_eq!(byte_length(thirty_two), 32);
    assert_eq!(
        classify_strings(&values(&[thirty_two, thirty_two]), &number().unwrap()),
        vec![pattern("user_${number}_${number}_${number}")]
    );
    let thirty_three = "user_1234567890_1234567890_123456";
    assert_eq!(
        classify_strings(&values(&[thirty_three, thirty_three]), &number().unwrap()),
        vec![TypingNode::String]
    );
}

#[test]
fn length_is_counted_in_bytes() {
    assert_eq!(byte_length("é"), 2);
    assert_eq!(byte_length(""), 0);
    let nine = "ééééééééé";
    assert_eq!(
        classify_strings(&values(&[nine, nine]), &number().unwrap()),
        vec![TypingNode::String]
    );
}

#[test]
fn templates_need_more_than_half_of_the_values_to_hold_a_number() {
    let half = values(&["a1", "b", "a1", "b"]);
    assert_eq!(classify_strings(&half, &number().unwrap()), vec![literal("a1"), literal("b")]);
    let most = values(&["a1", "a2", "b", "b"]);
    assert_eq!(
        classify_strings(&most, &number().unwrap()),
        vec![pattern("a${number}"), pattern("b")]
    );
}

#[test]
fn the_shape_follows_the_three_counts() {
    let uniques = strings(&["ab", "cd"]);
    assert_eq!(string_shape(3, &uniques, 0), StringShape::Literals);
    assert_eq!(string_shape(3, &uniques, 1), StringShape::Literals);
    assert_eq!(string_shape(3, &uniques, 2), StringShape::Templates);
    assert_eq!(string_shape(2, &uniques, 2), StringShape::Wide);
    assert_eq!(string_shape(0, &Vec::new(), 0), StringShape::Wide);
    let long = strings(&["abcdefghijklmnopqrstuvwxyz"]);
    assert_eq!(string_shape(2, &long, 0), StringShape::Wide);
    assert_eq!(string_shape(2, &long, 1), StringShape::Templates);
}

#[test]
fn a_match_gives_way_to_its_placeholder() {
    assert_eq!(template("id_1", &vec![(3, 4)]), "id_${number}");
    assert_eq!(template("10n apples", &vec![(0, 3)]), "${bigint} apples");
    assert_eq!(template("a1b1", &vec![(1, 2), (3, 4)]), "a${number}b${number}");
    assert_eq!(template("v1.2.3", &vec![(1, 4), (5, 6)]), "v${number}.${number}");
    assert_eq!(template("plain", &Vec::new()), "plain");
    assert_eq!(template("n", &vec![(0, 0)]), "${number}n");
}

#[test]
fn each_match_is_replaced_once_at_its_own_place() {
    assert_eq!(template("a1b11", &vec![(1, 2), (3, 5)]), "a${number}b${number}");
    assert_eq!(template("1x1", &vec![(2, 3)]), "1x${number}");
    let run = values(&["a1b11", "a1b11"]);
    assert_eq!(classify_strings(&run, &number().unwrap()), vec![pattern("a${number}b${number}")]);
}

#[test]
fn offsets_are_counted_in_bytes() {
    assert_eq!(template("é1", &vec![(2, 3)]), "é${number}");
    assert_eq!(template("😀7n€", &vec![(4, 6)]), "😀${bigint}€");
    let run = values(&["é1", "é2", "é1"]);
    assert_eq!(classify_strings(&run, &number().unwrap()), vec![pattern("é${number}")]);
    assert_eq!(width('a'), 1);
    assert_eq!(width('é'), 2);
    assert_eq!(width('€'), 3);
    assert_eq!(width('😀'), 4);
    for c in ['\u{7F}', '\u{80}', '\u{7FF}', '\u{800}', '\u{FFFF}', '\u{10000}'] {
        assert_eq!(width(c), c.len_utf8());
    }
    let chars: Vec<char> = "aé€😀".chars().collect();
    assert_eq!(advance(&chars, 0, 0), Some(0));
    assert_eq!(advance(&chars, 0, 3), Some(2));
    assert_eq!(advance(&chars, 1, 5), Some(3));
    assert_eq!(advance(&chars, 0, 10), Some(4));
    assert_eq!(advance(&chars, 0, 2), None);
    assert_eq!(advance(&chars, 0, 11), None);
    assert_eq!(advance(&chars, 4, 0), Some(4));
}

#[test]
fn a_span_that_is_not_in_the_text_is_passed_over() {
    assert_eq!(template("é1", &vec![(1, 2)]), "é1");
    assert_eq!(template("a1b1", &vec![(3, 4), (1, 2)]), "a1b${number}");
    assert_eq!(template("a1", &vec![(1, 9)]), "a1");
    assert_eq!(template("a1", &vec![(2, 1)]), "a1");
    assert_eq!(template("a1b2", &vec![(1, 3), (2, 4)]), "a${number}2");
}

#[test]
fn equal_templates_are_listed_once() {
    let uniques = strings(&["id_1", "id_2", "x"]);
    let found = vec![vec![(3, 4)], vec![(3, 4)], Vec::new()];
    assert_eq!(templates_of(&uniques, &found), strings(&["id_${number}", "x"]));
}

#[test]
fn the_pattern_finds_numbers_of_every_radix() {
    let pattern = number().unwrap();
    assert_eq!(
        pattern.as_string(),
        "(?i)(?:0b((?!0b)[0-1])+)|(?:0o((?!0o)[1-7])+)|(?:0x((?!0x)[\\da-f])+)|(?:\\d+(\\.\\d+)?)(?-i)n?"
    );
    let run = values(&["0x1F", "0b101", "0o17", "1.5", "12n", "0x1F"]);
    assert_eq!(
        classify_strings(&run, &pattern),
        vec![pattern_node("${number}"), pattern_node("${bigint}")]
    );
}

fn pattern_node(text: &str) -> TypingNode {
    pattern(text)
}
