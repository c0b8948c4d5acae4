use mininip::dump::dump_str;
use mininip::errors::Error;
use mininip::parse::{parse_str, tokenize, Token};

#[test]
fn token_iterator_no_escapes() {
    let message = "Hello world!";
    let found = tokenize(message);

    let expected = message.chars().map(|c| Token::Char(c)).collect::<Vec<Token>>();

    assert_eq!(found, expected);
}

#[test]
fn token_iterator_special_escapes() {
    let message = "\\;\\:\\=\\\\\\\'\\\"";
    let found = tokenize(message);

    let expected = [r"\;", r"\:", r"\=", r"\\", r"\'", "\\\""]
        .iter()
        .map(|s| Token::Escape(String::from(*s)))
        .collect::<Vec<Token>>();

    assert_eq!(found, expected);
}

#[test]
fn token_iterator_unicode_escapes() {
    let message = r"\x00263a\x002665\x000100";
    let found = tokenize(message);

    let expected = [r"\x00263a", r"\x002665", r"\x000100"]
        .iter()
        .map(|s| Token::Escape(String::from(*s)))
        .collect::<Vec<Token>>();

    assert_eq!(found, expected);
}

#[test]
fn token_iterator_unfinished_escape() {
    let message = r"Hello\";
    let found = tokenize(message);

    let mut expected = message
        .chars()
        .take(message.len() - 1)
        .map(|c| Token::Char(c))
        .collect::<Vec<Token>>();
    expected.push(Token::Escape(String::from("\\")));

    assert_eq!(found, expected);
}

#[test]
fn parse_str_ignore() {
    let message = "Hello world";

    assert_eq!(message, parse_str(message).unwrap());
}

#[test]
fn parse_str_special_escapes() {
    let message = "\\a\\b\\;\\:\\=\\'\\\"\\t\\r\\n\\0\\\\";
    let expected = "\x07\x08;:='\"\t\r\n\0\\";

    assert_eq!(parse_str(message).unwrap(), expected);
}

#[test]
fn parse_str_unicode_escapes() {
    let message = r"\x00263a\x002665\x000100";
    let expected = "\u{263a}\u{2665}\u{100}";

    assert_eq!(parse_str(message).unwrap(), expected);
}

#[test]
fn parse_str_unfinished_escape() {
    let message = r"Hello\";

    assert!(parse_str(message).is_err());
}

#[test]
fn parse_str_forbidden_ascii() {
    let message = r"hello=world";

    assert!(parse_str(message).is_err());
}

#[test]
fn parse_str_forbidden_unicode() {
    let message = "☺";

    assert!(parse_str(message).is_err());
}

#[test]
fn parse_str_unknown_escape() {
    let message = r"hello\p";

    match parse_str(message) {
        Err(Error::InvalidEscape(e)) => {
            assert_eq!(e.escape(), r"\p");
            assert_eq!(e.line(), message);
        },
        other => panic!("expected an invalid-escape error, got {:?}", other),
    }
}

#[test]
fn parse_str_hash_escape_and_raw() {
    assert_eq!(parse_str(r"\#").unwrap(), "#");
    assert_eq!(parse_str("#").unwrap(), "#");
}

#[test]
fn parse_str_forbidden_reports_position_and_escape() {
    match parse_str("ab=cd") {
        Err(Error::ExpectedEscape(e)) => {
            assert_eq!(e.index(), 2);
            assert_eq!(e.token(), '=');
            assert_eq!(e.replace(), r"\=");
        },
        other => panic!("expected an expected-escape error, got {:?}", other),
    }
}

#[test]
fn parse_str_rejects_uppercase_hex() {
    assert!(parse_str(r"\x00263A").is_err());
}

#[test]
fn parse_str_rejects_surrogate_code_point() {
    assert!(parse_str(r"\x00d800").is_err());
}

#[test]
fn parse_reverses_dump_specials() {
    let message = "a=b;c:d#e'f\"g\\h\t\r\n\x07\x08\0end";
    assert_eq!(parse_str(&dump_str(message)).unwrap(), message);
}

#[test]
fn parse_reverses_dump_empty() {
    assert_eq!(parse_str(&dump_str("")).unwrap(), "");
}

#[test]
fn dump_str_output_is_ascii() {
    let message = "très content ☺ 漢字 \u{10FFFF}";
    let dumped = dump_str(message);

    assert!(dumped.is_ascii());
    assert_eq!(dumped, r"tr\x0000e8s content \x00263a \x006f22\x005b57 \x10ffff");
}
