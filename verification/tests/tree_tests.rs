use mininip::datas::{Identifier, Table, Value};
use mininip::tree::{Cache, Tree};

#[test]
fn cache_from_data() {
    let mut data = Table::new();

    let section = None;
    data.insert(
        Identifier::new(section.clone(), String::from("version")),
        Value::Str(String::from("1.3.0")),
    );
    data.insert(
        Identifier::new(section.clone(), String::from("debug")),
        Value::Raw(String::from("true")),
    );
    data.insert(
        Identifier::new(section, String::from("allow_errors")),
        Value::Raw(String::from("false")),
    );

    let section = Some(String::from("foo"));
    data.insert(
        Identifier::new(section.clone(), String::from("answer")),
        Value::Raw(String::from("42")),
    );
    data.insert(Identifier::new(section, String::from("pi")), Value::Raw(String::from("3.14")));

    let section = Some(String::from("bar"));
    data.insert(Identifier::new(section.clone(), String::from("baz")), Value::Raw(String::new()));
    data.insert(
        Identifier::new(section, String::from("abc")),
        Value::Str(String::from("def")),
    );

    let cache = Cache::from(&data);
    assert_eq!(&cache.sections, &vec![String::from("bar"), String::from("foo")]);

    let global = cache.keys_for(None).unwrap();
    assert_eq!(
        global,
        &vec![String::from("allow_errors"), String::from("debug"), String::from("version")]
    );

    let foo = cache.keys_for(Some("foo")).unwrap();
    assert_eq!(foo, &vec![String::from("answer"), String::from("pi")]);

    let bar = cache.keys_for(Some("bar")).unwrap();
    assert_eq!(bar, &vec![String::from("abc"), String::from("baz")]);
}

#[test]
fn cache_missing_section_has_no_keys() {
    let data = Table::new();
    let cache = Cache::from(&data);

    assert!(cache.sections.is_empty());
    assert!(cache.keys_for(None).is_none());
    assert!(cache.keys_for(Some("missing")).is_none());
}

#[test]
fn tree_keeps_its_data() {
    let mut data = Table::new();
    let key = Identifier::new(Some(String::from("sec")), String::from("name"));
    data.insert(key.clone(), Value::Raw(String::from("value")));

    let tree = Tree::from_data(data);
    let back = tree.into_data();

    assert_eq!(back.get(&key), Some(&Value::Raw(String::from("value"))));
    assert_eq!(back.len(), 1);
}
