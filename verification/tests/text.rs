use json_typings::order::{sort_order, SortKey};
use json_typings::text::{chars_le, chars_of, distinct_strings, join_strings, repeat_str, split_chars, string_of};

fn chars(text: &str) -> Vec<char> {
    text.chars().collect()
}

#[test]
fn characters_go_there_and_back() {
    assert_eq!(chars_of("aé😀"), vec!['a', 'é', '😀']);
    assert_eq!(string_of(&vec!['a', 'é', '😀']), "aé😀");
    assert_eq!(chars_of(""), Vec::<char>::new());
}

#[test]
fn join_puts_the_separator_between() {
    let parts = vec![String::from("a"), String::from("b"), String::from("")];
    assert_eq!(join_strings(&parts, ", "), "a, b, ");
    assert_eq!(join_strings(&Vec::new(), ", "), "");
    assert_eq!(join_strings(&vec![String::from("a")], ", "), "a");
}

#[test]
fn repeat_writes_the_text_so_many_times() {
    assert_eq!(repeat_str("ab", 3), "ababab");
    assert_eq!(repeat_str("ab", 0), "");
}

#[test]
fn split_yields_one_piece_more_than_separators() {
    let pieces: Vec<String> = split_chars(&chars("a.b..c."), '.').iter().map(string_of).collect();
    assert_eq!(pieces, vec!["a", "b", "", "c", ""]);
    assert_eq!(split_chars(&chars(""), '.'), vec![Vec::<char>::new()]);
}

#[test]
fn texts_are_ordered_as_str_orders_them() {
    for (a, b) in [("a", "b"), ("a", "ab"), ("", "a"), ("b", "ab"), ("é", "z"), ("Z", "a"), ("a", "a")] {
        assert_eq!(chars_le(&chars(a), &chars(b)), a <= b);
        assert_eq!(chars_le(&chars(b), &chars(a)), b <= a);
    }
}

#[test]
fn distinct_keeps_the_first_of_each() {
    let texts: Vec<String> = ["b", "a", "b", "c", "a"].iter().map(|text| String::from(*text)).collect();
    assert_eq!(distinct_strings(&texts), vec!["b", "a", "c"]);
}

#[test]
fn sorting_is_stable() {
    let key = |rank: u8, name: &str, kind: u8, body: &str| SortKey {
        rank,
        name: chars(name),
        kind,
        body: chars(body),
    };
    let keys = vec![
        key(1, "a", 0, ""),
        key(0, "b", 1, "x"),
        key(0, "b", 0, "y"),
        key(0, "a", 0, ""),
        key(0, "b", 1, "x"),
        key(0, "b", 1, "w"),
    ];
    assert_eq!(sort_order(&keys), vec![3, 2, 5, 1, 4, 0]);
    assert_eq!(sort_order(&Vec::new()), Vec::<usize>::new());
}
