use mininip::datas::{Identifier, Value};
use mininip::dump::dump_str;
use mininip::dumper::Dumper;

#[test]
fn dumper_without_globals() {
    let mut dumper = Dumper::new();

    let abc = Some(String::from("abc"));
    let a = Identifier::new(abc.clone(), String::from("a"));
    let b = Identifier::new(abc.clone(), String::from("b"));
    let c = Identifier::new(abc, String::from("c"));

    let def = Some(String::from("def"));
    let d = Identifier::new(def.clone(), String::from("d"));
    let e = Identifier::new(def.clone(), String::from("e"));
    let f = Identifier::new(def, String::from("f"));

    dumper.dump(a, Value::Raw(String::from("1")));
    dumper.dump(b, Value::Raw(String::from("2")));
    dumper.dump(c, Value::Raw(String::from("3")));
    dumper.dump(d, Value::Raw(String::from("4")));
    dumper.dump(e, Value::Raw(String::from("5")));
    dumper.dump(f, Value::Raw(String::from("6")));

    let expected = "\
    [abc]\n\
    a=1\n\
    b=2\n\
    c=3\n\
    \n\
    [def]\n\
    d=4\n\
    e=5\n\
    f=6\n";

    assert_eq!(expected, dumper.generate());
}

#[test]
fn dumper_with_globals() {
    let mut dumper = Dumper::new();

    let a = Identifier::new(None, String::from("a"));
    let b = Identifier::new(None, String::from("b"));
    let c = Identifier::new(None, String::from("c"));

    let def = Some(String::from("def"));
    let d = Identifier::new(def.clone(), String::from("d"));
    let e = Identifier::new(def.clone(), String::from("e"));
    let f = Identifier::new(def, String::from("f"));

    dumper.dump(a, Value::Raw(String::from("1")));
    dumper.dump(b, Value::Raw(String::from("2")));
    dumper.dump(c, Value::Raw(String::from("3")));
    dumper.dump(d, Value::Raw(String::from("4")));
    dumper.dump(e, Value::Raw(String::from("5")));
    dumper.dump(f, Value::Raw(String::from("6")));

    let expected = "\
    a=1\n\
    b=2\n\
    c=3\n\
    \n\
    [def]\n\
    d=4\n\
    e=5\n\
    f=6\n";

    assert_eq!(expected, dumper.generate());
}

#[test]
fn dumper_with_escape() {
    let mut dumper = Dumper::new();

    let ident = Identifier::new(None, String::from("ident"));
    let val = Value::Raw(String::from(":D = \u{263a}"));

    dumper.dump(ident, val);

    assert_eq!("ident=\\:D \\= \\x00263a\n", dumper.generate());
}

#[test]
fn dumper_empty_generates_empty() {
    let dumper = Dumper::new();

    assert_eq!(dumper.generate(), "");
}

#[test]
fn dumper_sorts_sections_and_keys() {
    let mut dumper = Dumper::new();

    let zz = Some(String::from("zz"));
    let aa = Some(String::from("aa"));
    dumper.dump(Identifier::new(zz.clone(), String::from("k")), Value::Raw(String::from("1")));
    dumper.dump(Identifier::new(aa.clone(), String::from("b")), Value::Raw(String::from("2")));
    dumper.dump(Identifier::new(aa, String::from("a")), Value::Raw(String::from("3")));
    dumper.dump(Identifier::new(None, String::from("g")), Value::Raw(String::from("4")));

    let expected = "\
    g=4\n\
    \n\
    [aa]\n\
    a=3\n\
    b=2\n\
    \n\
    [zz]\n\
    k=1\n";

    assert_eq!(expected, dumper.generate());
}

#[test]
fn dump_str_escapes_every_special() {
    assert_eq!(
        dump_str("\\'\"\0\x07\x08\t\r\n;#=:"),
        "\\\\\\'\\\"\\0\\a\\b\\t\\r\\n\\;\\#\\=\\:"
    );
}
