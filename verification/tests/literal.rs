use json_typings::{Literal, Settings};
use serde_json::Number;

fn shown(literal: Literal) -> String {
    literal.to_string(&Settings::new())
}

#[test]
fn display_integer() {
    assert_eq!("1024", shown(Literal::Number(Number::from(1024))));
    assert_eq!("-1024", shown(Literal::Number(Number::from(-1024))));

    assert_eq!("0", shown(Literal::Number(Number::from(0))));
    assert_eq!("0", shown(Literal::Number(Number::from(-0))));
}

#[test]
fn display_float() {
    assert_eq!(
        "7.65",
        shown(Literal::Number(Number::from_f64(7.65).unwrap()))
    );
    assert_eq!(
        "-7.65",
        shown(Literal::Number(Number::from_f64(-7.65).unwrap()))
    );

    assert_eq!(
        "0",
        shown(Literal::Number(Number::from_f64(0.0).unwrap()))
    );
    assert_eq!(
        "-0",
        shown(Literal::Number(Number::from_f64(-0.0).unwrap()))
    );
}

#[test]
fn display_string() {
    assert_eq!(
        "\"test\"",
        shown(Literal::String(String::from("test")))
    );
}

#[test]
fn display_template() {
    assert_eq!("`id_${number}`", shown(Literal::Template(String::from("id_${number}"))));
}

#[test]
fn display_string_with_another_delimiter() {
    let mut settings = Settings::new();
    settings.string_delimiter = String::from("'");
    assert_eq!("'test'", Literal::from_str("test").to_string(&settings));
    assert_eq!("`test`", Literal::Template(String::from("test")).to_string(&settings));
    assert_eq!(Literal::from_str("a"), Literal::String(String::from("a")));
}
