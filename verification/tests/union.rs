use json_typings::TypingUnion;

#[test]
fn no_values() {
    let union = TypingUnion::new(vec![]);

    assert_eq!(union.to_string(""), String::from("unknown"));
}

#[test]
fn one_value() {
    let union = TypingUnion::new(vec![String::from("string")]);

    assert_eq!(union.to_string(""), String::from("string"));
}

#[test]
fn multi_value() {
    let union = TypingUnion::new(vec![
        String::from("string"),
        String::from("number"),
        String::from("boolean"),
    ]);
    let indentation = "    ";

    assert_eq!(
        ["string", "    | number", "    | boolean"].join("\n"),
        union.to_string(indentation)
    );
}

#[test]
fn union_uses_the_indentation_it_is_given() {
    let union = TypingUnion::new(vec![String::from("a"), String::from("b")]);
    assert_eq!(union.to_string("\t"), String::from("a\n\t| b"));
    let single = TypingUnion::new(vec![String::from("a")]);
    assert_eq!(single.to_string("\t"), String::from("a"));
}
