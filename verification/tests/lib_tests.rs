use mininip::datas::{Identifier, Table, Value};
use mininip::dump::dump_str;
use mininip::dumper::Dumper;
use mininip::parse::parse_str;
use mininip::parser::parse_text;

#[test]
fn parse_reverses_dump() {
    let message = "Hello world ☺. 1+1=2; 2+2=4 \\0/";

    assert_eq!(
        parse_str(&dump_str(message)).expect("`dump_str` must return a well escaped string"),
        message
    );
}

#[test]
fn parse_good_file() {
    let content = "\
    author=Boris DRYKONINGEN\n\
    version_major=0\n\
    \n\
    [numbers]\n\
    one=1\n\
    two=2\n\
    three=3\n\
    \n\
    [symbols]\n\
    smiley=\\x00263a\n\
    semicolon=\\;\n";
    let data = parse_text(content).unwrap();

    let author = Identifier::new(None, String::from("author"));
    let version_major = Identifier::new(None, String::from("version_major"));

    let numbers = Some(String::from("numbers"));
    let one = Identifier::new(numbers.clone(), String::from("one"));
    let two = Identifier::new(numbers.clone(), String::from("two"));
    let three = Identifier::new(numbers, String::from("three"));

    let symbols = Some(String::from("symbols"));
    let smiley = Identifier::new(symbols.clone(), String::from("smiley"));
    let semicolon = Identifier::new(symbols, String::from("semicolon"));

    assert_eq!(data.get(&author), Some(&Value::Raw(String::from("Boris DRYKONINGEN"))));
    assert_eq!(data.get(&version_major), Some(&Value::Raw(String::from("0"))));

    assert_eq!(data.get(&one), Some(&Value::Raw(String::from("1"))));
    assert_eq!(data.get(&two), Some(&Value::Raw(String::from("2"))));
    assert_eq!(data.get(&three), Some(&Value::Raw(String::from("3"))));

    assert_eq!(data.get(&smiley), Some(&Value::Raw(String::from("\u{263a}"))));
    assert_eq!(data.get(&semicolon), Some(&Value::Raw(String::from(";"))));
}

#[test]
fn parse_bad_file() {
    let content = "\
    author=Boris DRYKONINGEN\n\
    version_major = 0\n\
    \n\
    [ummatched\n\
    one=1\n";
    let err = parse_text(content);

    assert!(err.is_err());
}

#[test]
fn full_document_round_trip() {
    let mut table = Table::new();
    table.insert(
        Identifier::new(None, String::from("greeting")),
        Value::Raw(String::from("hello ☺ world")),
    );
    table.insert(
        Identifier::new(None, String::from("empty")),
        Value::Raw(String::new()),
    );
    table.insert(
        Identifier::new(Some(String::from("maths")), String::from("sum")),
        Value::Raw(String::from("∑ = a;b")),
    );
    table.insert(
        Identifier::new(Some(String::from("maths")), String::from("pi")),
        Value::Raw(String::from("3.14")),
    );
    table.insert(
        Identifier::new(Some(String::from("ascii")), String::from("tricky")),
        Value::Raw(String::from("a=b;c:d#e'f\"g\\h")),
    );

    let document = mininip::dumper::dump_table(&table);

    let reparsed = parse_text(&document).unwrap();
    assert_eq!(reparsed.len(), table.len());
    for (ident, value) in table.entries().iter() {
        assert_eq!(reparsed.get(ident), Some(value));
    }
}

#[test]
fn document_round_trip_independent_of_order() {
    let entries = [
        (Some("zeta"), "k", "va"),
        (None, "g", "vb"),
        (Some("alpha"), "b", "vc"),
        (Some("alpha"), "a", "vd"),
    ];
    let mut forward = Dumper::new();
    for (sec, name, val) in entries.iter() {
        forward.dump(
            Identifier::new(sec.map(String::from), String::from(*name)),
            Value::Raw(String::from(*val)),
        );
    }
    let mut backward = Dumper::new();
    for (sec, name, val) in entries.iter().rev() {
        backward.dump(
            Identifier::new(sec.map(String::from), String::from(*name)),
            Value::Raw(String::from(*val)),
        );
    }
    assert_eq!(forward.generate(), backward.generate());
}

#[test]
fn parse_text_stops_at_first_error() {
    let content = "good=1\nbad line\nnever=2\n";

    assert!(parse_text(content).is_err());
}
