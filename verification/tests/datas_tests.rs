use mininip::datas::{Identifier, Value};

#[test]
fn value_from_string() -> Result<(), String> {
    let txt = String::from("Hello world!");
    let val = Value::from(txt.clone());

    match val {
        Value::Str(string) => {
            if &string == &txt {
                Ok(())
            } else {
                Err(string)
            }
        },
        Value::Raw(string) => Err(string),
    }
}

#[test]
fn value_display() {
    let txt = "Hello world!";
    let val = Value::from(String::from(txt));

    assert_eq!(val.display(), txt);
}

#[test]
fn value_dump() {
    let val = Value::from(String::from("très_content=☺ ; the symbol of hapiness"));
    let dumped = val.dump();

    assert_eq!(dumped, "'tr\\x0000e8s_content\\=\\x00263a \\; the symbol of hapiness'");
}

#[test]
fn value_parse_ok() {
    let val = Value::parse_str(r"Hello \x002665").unwrap();

    assert_eq!(val, Value::Str(String::from("Hello \u{2665}")));
}

#[test]
fn value_parse_err() {
    let val = Value::parse_str(r"Hello \p");

    assert!(val.is_err());
}

#[test]
fn value_parse_raw_kind() {
    let val = Value::parse(r"plain \; text").unwrap();

    assert_eq!(val, Value::Raw(String::from("plain ; text")));
}

#[test]
fn value_default_is_empty_raw() {
    let val = Value::default();

    assert_eq!(val, Value::Raw(String::new()));
    assert_eq!(val.display(), "");
}

#[test]
fn value_dump_raw_unquoted() {
    let val = Value::Raw(String::from("a'bc=123;"));

    assert_eq!(val.dump(), r"a\'bc\=123\;");
}

#[test]
fn identifier_new_some() {
    let section = Some(String::from("Section_name"));
    let variable = String::from("Variable_name");
    let ident = Identifier::new(section.clone(), variable.clone());

    assert_eq!(ident.section(), Some("Section_name"));
    assert_eq!(ident.name(), "Variable_name");
}

#[test]
fn identifier_new_none() {
    let section = None;
    let variable = String::from("Variable_name");
    let ident = Identifier::new(section, variable.clone());

    assert_eq!(ident.section(), None);
    assert_eq!(ident.name(), "Variable_name");
}

#[test]
fn identifier_is_valid_full_test() {
    assert!(Identifier::is_valid("UPPERCASE_ONE"));
    assert!(Identifier::is_valid("lowercase_one"));
    assert!(Identifier::is_valid("alpha_numeric_42"));
    assert!(!Identifier::is_valid("42_starts_with_a_digit"));
    assert!(!Identifier::is_valid("Non numeric nor alphabetic character"));
    assert!(!Identifier::is_valid("Non_ascii_character_\u{263a}"));
    assert!(!Identifier::is_valid(""));
}

#[test]
fn identifier_validity_edge_cases() {
    assert!(!Identifier::is_valid(""));
    assert!(Identifier::is_valid("UPPER_1"));
    assert!(!Identifier::is_valid("1abc"));
    assert!(!Identifier::is_valid("héllo"));
    assert!(Identifier::is_valid("  trimmed_first  "));
    assert!(!Identifier::is_valid("_starts_with_underscore"));
}

#[test]
fn identifier_change_section_ok() {
    let mut ident = Identifier::new(Some(String::from("Section")), String::from("Variable"));

    ident.change_section(Some(String::from("Valid_one")));

    assert_eq!(ident.section(), Some("Valid_one"));
}

#[test]
fn identifier_change_section_none() {
    let mut ident = Identifier::new(Some(String::from("Section")), String::from("Variable"));

    ident.change_section(None);

    assert_eq!(ident.section(), None);
}

#[test]
fn identifier_change_name_ok() {
    let mut ident = Identifier::new(Some(String::from("Section")), String::from("Variable"));

    ident.change_name(String::from("Valid_one"));

    assert_eq!(ident.name(), "Valid_one");
}

#[test]
fn identifier_format_with_section() {
    let section = String::from("Section");
    let variable = String::from("Variable");
    let ident = Identifier::new(Some(section.clone()), variable.clone());

    assert_eq!(ident.display(), format!("{}.{}", section, variable));
}

#[test]
fn identifier_format_without_section() {
    let section = None;
    let variable = String::from("Variable");
    let ident = Identifier::new(section, variable.clone());

    assert_eq!(ident.display(), variable);
}
