use json_typings::{
    Interface, InterfaceEntry, Namespace, NamespaceEntry, NamespaceEntryValue, NestingLevel, Settings,
    Strategy, TypePath,
};

fn field(key: &str, value: &str, optional: bool) -> InterfaceEntry {
    InterfaceEntry { key: String::from(key), value: String::from(value), optional }
}

fn path_of(segments: &[&str]) -> TypePath {
    TypePath { segments: segments.iter().map(|segment| String::from(*segment)).collect() }
}

fn sorting() -> Settings {
    let mut settings = Settings::new();
    settings.sort = true;
    settings
}

#[test]
fn default_settings() {
    let settings = Settings::new();
    assert_eq!(settings.string_delimiter, "\"");
    assert_eq!(settings.indentation, "    ");
    assert_eq!(settings.typescript_version, "latest");
    assert_eq!(settings.strategy, Strategy::Tree);
    assert!(!settings.sort);
}

#[test]
fn an_interface_is_named_in_pascal_case() {
    assert_eq!(Interface::new("my_record name", None).name, "MyRecordName");
    assert_eq!(Interface::new("user", Some("base_user")).extends, Some(String::from("base_user")));
    assert_eq!(Interface::new("user", None).entries, vec![]);
}

#[test]
fn an_empty_interface_is_two_lines() {
    assert_eq!(Interface::new("user", None).to_string(&Settings::new()), "export interface User {\n}");
    assert_eq!(
        Interface::new("user", Some("Base")).to_string(&Settings::new()),
        "export interface User extends Base {\n}"
    );
}

#[test]
fn fields_are_written_as_declared() {
    let mut interface = Interface::new("user", None);
    interface.entries = vec![field("b", "string", true), field("a", "number", false)];
    assert_eq!(
        interface.to_string(&Settings::new()),
        "export interface User {\n    b?: string;\n    a: number;\n}"
    );
    let mut settings = Settings::new();
    settings.indentation = String::from("\t");
    assert_eq!(interface.to_string(&settings), "export interface User {\n\tb?: string;\n\ta: number;\n}");
}

#[test]
fn sorted_fields_put_required_first_then_ascend_by_key() {
    let mut interface = Interface::new("user", None);
    interface.entries = vec![
        field("b", "1", true),
        field("z", "2", false),
        field("a", "3", true),
        field("c", "4", false),
        field("Z", "5", false),
        field("a", "6", true),
    ];
    assert_eq!(
        interface.to_string(&sorting()),
        [
            "export interface User {",
            "    Z: 5;",
            "    c: 4;",
            "    z: 2;",
            "    a?: 3;",
            "    a?: 6;",
            "    b?: 1;",
            "}",
        ]
        .join("\n")
    );
}

#[test]
fn a_namespace_without_entries_is_its_interface() {
    let namespace = Namespace::new("some_user");
    assert_eq!(namespace.name, "SomeUser");
    assert_eq!(namespace.interface, Interface::new("some_user", None));
    assert_eq!(namespace.to_string(&Settings::new()), "export interface SomeUser {\n}");
}

#[test]
fn namespace_entries_are_sorted_and_indented() {
    let mut namespace = Namespace::new("user");
    namespace.entries = vec![
        NamespaceEntry::new("Tags", NamespaceEntryValue::Namespace(String::from("export interface Tags {\n}"))),
        NamespaceEntry::new("Tags", NamespaceEntryValue::Alias(String::from("string\n    | number"))),
        NamespaceEntry::new("Kind", NamespaceEntryValue::Alias(String::from("null"))),
    ];
    assert_eq!(
        namespace.to_string(&Settings::new()),
        [
            "export interface User {",
            "}",
            "",
            "export namespace User {",
            "    export type Kind = null;",
            "",
            "    export type Tags = string",
            "        | number;",
            "",
            "    export interface Tags {",
            "    }",
            "}",
        ]
        .join("\n")
    );
}

#[test]
fn namespace_entries_are_sorted_whatever_the_switch_says() {
    let mut namespace = Namespace::new("user");
    namespace.entries = vec![
        NamespaceEntry::new("b", NamespaceEntryValue::Alias(String::from("2"))),
        NamespaceEntry::new("a", NamespaceEntryValue::Alias(String::from("1"))),
    ];
    let plain = namespace.to_string(&Settings::new());
    assert!(plain.find("type a").unwrap() < plain.find("type b").unwrap());
    assert_eq!(plain, namespace.to_string(&sorting()));
}

#[test]
fn a_namespace_entry_keeps_what_it_is_given() {
    let entry = NamespaceEntry::new("key", NamespaceEntryValue::Alias(String::from("string")));
    assert_eq!(entry.key, "key");
    assert_eq!(entry.value, NamespaceEntryValue::Alias(String::from("string")));
}

#[test]
fn a_path_is_parsed_segment_by_segment() {
    assert_eq!(TypePath::new().segments, Vec::<String>::new());
    assert_eq!(TypePath::new().path(), "");
    let path = TypePath::parse("some_user.address.zip code");
    assert_eq!(path.segments, vec!["SomeUser", "Address", "ZipCode"]);
    assert_eq!(path.path(), "SomeUser.Address.ZipCode");
    assert_eq!(TypePath::parse("").segments, vec![""]);
    assert_eq!(TypePath::from("a.b_c"), path_of(&["A", "BC"]));
    assert_eq!(TypePath::from("a") + &TypePath::from("b.c"), path_of(&["A", "B", "C"]));
    assert_eq!(TypePath::new() + "x_y.z", path_of(&["XY", "Z"]));
    assert_eq!((TypePath::from("a") + &TypePath::new()).path(), "A");
}

#[test]
fn a_nesting_level_repeats_its_unit() {
    assert_eq!(NestingLevel(3).to_string("  "), "      ");
    assert_eq!(NestingLevel(0).to_string("  "), "");
    assert_eq!(NestingLevel::from(2), NestingLevel(2));
    assert_eq!(NestingLevel(1) + NestingLevel(2), NestingLevel(3));
    assert_eq!(NestingLevel(1) - NestingLevel(2), NestingLevel(3));
}
