use mininip::datas::{Identifier, Value};
use mininip::errors::Error;
use mininip::parser::Parser;

#[test]
fn parser_parse_assignment_simplest() {
    let expr = "ident=val";
    let mut parser = Parser::new();

    parser
        .parse_assignment(expr)
        .expect("This code should be accepted because it's a valid INI assignment");

    let data = parser.data();
    let key = Identifier::new(None, String::from("ident"));
    let val = Value::Str(String::from("val"));
    assert_eq!(data.get(&key), Some(&val));
}

#[test]
fn parser_parse_assignment_commented() {
    let expr = "ident=val;This is a comment";
    let mut parser = Parser::new();

    parser
        .parse_assignment(expr)
        .expect("This code should be accepted because it's a valid INI assignment");

    let data = parser.data();
    let key = Identifier::new(None, String::from("ident"));
    let val = Value::Str(String::from("val"));
    assert_eq!(data.get(&key), Some(&val));
}

#[test]
fn parser_parse_assignment_with_spaces() {
    let expr = "ident = val";
    let mut parser = Parser::new();

    parser
        .parse_assignment(expr)
        .expect("This code should be accepted because it's a valid INI assignment");

    let data = parser.data();
    let key = Identifier::new(None, String::from("ident"));
    let val = Value::Str(String::from("val"));
    assert_eq!(data.get(&key), Some(&val));
}

#[test]
fn parser_parse_assignment_with_comment_and_spaces() {
    let expr = "ident=val ; This is a comment";
    let mut parser = Parser::new();

    parser
        .parse_assignment(expr)
        .expect("This code should be accepted because it's a valid INI assignment");

    let data = parser.data();
    let key = Identifier::new(None, String::from("ident"));
    let val = Value::Str(String::from("val"));
    assert_eq!(data.get(&key), Some(&val));
}

#[test]
fn parser_parse_assignment_unicode_value() {
    let expr = r"latin_small_letter_e_with_acute=\x0000e9";
    let mut parser = Parser::new();

    parser
        .parse_assignment(expr)
        .expect("This code should be accepted because it's a valid INI assignment");

    let data = parser.data();
    let key = Identifier::new(None, String::from("latin_small_letter_e_with_acute"));
    let val = Value::Str(String::from("\u{e9}"));
    assert_eq!(data.get(&key), Some(&val));
}

#[test]
fn parser_parse_assignment_unicode_comment() {
    let expr = "ident=val; C'est un cas tout à fait valid"; // Notice the 'à' in the comment
    let mut parser = Parser::new();

    parser
        .parse_assignment(expr)
        .expect("This code should be accepted because it's a valid INI assignment");

    let data = parser.data();
    let key = Identifier::new(None, String::from("ident"));
    let val = Value::Str(String::from("val"));
    assert_eq!(data.get(&key), Some(&val));
}

#[test]
fn parser_parse_assignment_unicode_identifier() {
    let expr = r"é=\x0000e9";
    let mut parser = Parser::new();

    assert!(parser.parse_assignment(expr).is_err());
}

#[test]
fn parser_parse_assignment_bad_ident() {
    let expr = "my identifier=val";
    let mut parser = Parser::new();

    assert!(parser.parse_assignment(expr).is_err());
}

#[test]
fn parser_parse_assignment_bad_value() {
    let expr = "ident=abc=123";
    let mut parser = Parser::new();

    assert!(parser.parse_assignment(expr).is_err());
}

#[test]
fn parser_parse_assignment_no_value() {
    let expr = "ident=";
    let mut parser = Parser::new();

    parser
        .parse_assignment(expr)
        .expect("This code should be accepted because it's a valid INI assignment");

    let data = parser.data();
    let key = Identifier::new(None, String::from("ident"));
    let val = Value::Str(String::new());
    assert_eq!(data.get(&key), Some(&val));
}

#[test]
fn parser_parse_assignment_missing_equal_reports_position() {
    let mut parser = Parser::new();

    match parser.parse_assignment("ident") {
        Err(Error::ExpectedToken(e)) => {
            assert_eq!(e.index(), 5);
            assert_eq!(e.tokens(), "=");
        },
        other => panic!("expected an expected-token error, got {:?}", other),
    }
}

#[test]
fn parser_parse_section_simplest() {
    let expr = "[section]";
    let mut parser = Parser::new();

    parser
        .parse_section(expr)
        .expect("This code should be accepted because it's a valid INI section declaration");

    assert_eq!(parser.current_section(), Some("section"));

    parser.parse_assignment("ident=val").unwrap();

    let data = parser.data();
    let key = Identifier::new(Some(String::from("section")), String::from("ident"));
    let val = Value::Str(String::from("val"));
    assert_eq!(data.get(&key), Some(&val));
}

#[test]
fn parser_parse_section_with_comment() {
    let expr = "[section];comment";
    let mut parser = Parser::new();

    parser
        .parse_section(expr)
        .expect("This code should be accepted because it's a valid INI section declaration");

    assert_eq!(parser.current_section(), Some("section"));

    parser.parse_assignment("ident=val").unwrap();

    let data = parser.data();
    let key = Identifier::new(Some(String::from("section")), String::from("ident"));
    let val = Value::Str(String::from("val"));
    assert_eq!(data.get(&key), Some(&val));
}

#[test]
fn parser_parse_section_with_comment_and_whitespaces() {
    let expr = "[section]\t ; comment";
    let mut parser = Parser::new();

    parser
        .parse_section(expr)
        .expect("This code should be accepted because it's a valid INI section declaration");

    assert_eq!(parser.current_section(), Some("section"));

    parser.parse_assignment("ident=val").unwrap();

    let data = parser.data();
    let key = Identifier::new(Some(String::from("section")), String::from("ident"));
    let val = Value::Str(String::from("val"));
    assert_eq!(data.get(&key), Some(&val));
}

#[test]
fn parser_parse_section_leading_extra_token() {
    let expr = "char nullTerminatedString[BUFSIZ]";
    let mut parser = Parser::new();

    assert!(parser.parse_section(expr).is_err());
}

#[test]
fn parser_parse_section_ending_extra_token() {
    let expr = "[section] () -> bool { return true; }";
    let mut parser = Parser::new();

    assert!(parser.parse_section(expr).is_err());
}

#[test]
fn parser_parse_section_invalid_identifier() {
    let expr = "[hello there!]";
    let mut parser = Parser::new();

    assert!(parser.parse_section(expr).is_err());
}

#[test]
fn parser_parse_section_empty() {
    let expr = "[]";
    let mut parser = Parser::new();

    match parser.parse_section(expr) {
        Err(Error::ExpectedIdentifier(e)) => assert_eq!(e.index(), 1),
        other => panic!("expected an expected-identifier error, got {:?}", other),
    }
}

#[test]
fn parser_parse_section_unterminated() {
    let expr = "[EOF";
    let mut parser = Parser::new();

    match parser.parse_section(expr) {
        Err(Error::ExpectedToken(e)) => {
            assert_eq!(e.index(), 1);
            assert_eq!(e.tokens(), "]");
        },
        other => panic!("expected an expected-token error, got {:?}", other),
    }
}

#[test]
fn parser_bad_identifier_reports_the_text() {
    let mut parser = Parser::new();

    match parser.parse_assignment("my identifier=val") {
        Err(Error::InvalidIdentifier(e)) => {
            assert_eq!(e.ident(), "my identifier");
            assert_eq!(e.line(), "my identifier=val");
        },
        other => panic!("expected an invalid-identifier error, got {:?}", other),
    }
}

#[test]
fn parser_bad_section_name_reports_the_text() {
    let mut parser = Parser::new();

    match parser.parse_section("[hello there!]") {
        Err(Error::InvalidIdentifier(e)) => assert_eq!(e.ident(), "hello there!"),
        other => panic!("expected an invalid-identifier error, got {:?}", other),
    }
}

#[test]
fn parser_parse_section_trailing_garbage_position() {
    let expr = "[section] garbage";
    let mut parser = Parser::new();

    match parser.parse_line(expr) {
        Err(Error::UnexpectedToken(e)) => {
            assert_eq!(e.index(), 10);
            assert_eq!(e.token(), 'g');
            assert_eq!(e.line(), expr);
        },
        other => panic!("expected an unexpected-token error, got {:?}", other),
    }
}

#[test]
fn parser_duplicate_key_last_wins() {
    let mut parser = Parser::new();

    parser.parse_line("a=1").unwrap();
    parser.parse_line("a=2").unwrap();

    let data = parser.data();
    let key = Identifier::new(None, String::from("a"));
    assert_eq!(data.get(&key), Some(&Value::Raw(String::from("2"))));
    assert_eq!(data.len(), 1);
}

#[test]
fn parser_comment_and_blank_lines_are_no_ops() {
    let mut parser = Parser::new();

    parser.parse_line("").unwrap();
    parser.parse_line("   \t").unwrap();
    parser.parse_line("; a comment line").unwrap();

    let data = parser.data();
    assert_eq!(data.len(), 0);
}

#[test]
fn parser_error_leaves_state_unchanged() {
    let mut parser = Parser::new();

    parser.parse_line("[keep]").unwrap();
    parser.parse_line("kept=1").unwrap();
    assert!(parser.parse_line("bad ident=2").is_err());
    assert_eq!(parser.current_section(), Some("keep"));

    let data = parser.data();
    assert_eq!(data.len(), 1);
}
