use json_typings::utils;

#[test]
fn upper_first() {
    assert_eq!(utils::upper_first("test"), String::from("Test"));
}

#[test]
fn add_indentation() {
    assert_eq!(
        utils::add_indentation("  ", "t\ne\ns\nt"),
        String::from("  t\n  e\n  s\n  t")
    );
}

#[test]
fn upper_first_of_nothing_is_nothing() {
    assert_eq!(utils::upper_first(""), String::new());
}

#[test]
fn upper_first_takes_a_whole_grapheme() {
    assert_eq!(utils::upper_first("e\u{301}te"), String::from("E\u{301}te"));
    assert_eq!(utils::upper_first("ßa"), String::from("SSa"));
    assert_eq!(utils::upper_first("Test"), String::from("Test"));
}

#[test]
fn add_indentation_leaves_blank_lines() {
    assert_eq!(
        utils::add_indentation("--", "a\n\n \t\nb\n"),
        String::from("--a\n\n \t\n--b\n")
    );
    assert_eq!(utils::add_indentation("--", ""), String::new());
    assert_eq!(utils::add_indentation("--", "\u{2003}"), String::from("\u{2003}"));
    assert_eq!(utils::add_indentation("", "a\nb"), String::from("a\nb"));
    for c in ['\u{9}', '\u{d}', ' ', '\u{85}', '\u{a0}', '\u{1680}', '\u{2000}', '\u{200a}', '\u{2028}', '\u{2029}', '\u{202f}', '\u{205f}', '\u{3000}'] {
        assert_eq!(utils::add_indentation("--", &c.to_string()), c.to_string());
    }
    for c in ['\u{8}', '\u{e}', '!', '\u{84}', '\u{86}', '\u{180e}', '\u{200b}', '\u{2027}', '\u{202a}', '\u{2060}', '\u{3001}', '\u{feff}'] {
        assert_eq!(utils::add_indentation("--", &c.to_string()), format!("--{}", c));
    }
}
