use mnemo::store::db::Db;
use mnemo::store::value::RedisValue;

fn string(s: &str) -> RedisValue {
    RedisValue::String(s.as_bytes().to_vec())
}

#[test]
fn get_returns_what_set_stored() {
    let mut db = Db::default();
    db.set("foo".to_string(), string("bar"));
    assert_eq!(db.get("foo"), Some(&string("bar")));
}

#[test]
fn get_on_a_missing_key_is_none() {
    let db = Db::default();
    assert_eq!(db.get("nope"), None);
}

#[test]
fn set_overwrites_and_hands_back_the_old_value() {
    let mut db = Db::default();
    assert_eq!(db.set("k".to_string(), string("one")), None);
    assert_eq!(db.set("k".to_string(), string("two")), Some(string("one")));
    assert_eq!(db.get("k"), Some(&string("two")));
}

#[test]
fn del_removes_the_key_and_returns_what_was_there() {
    let mut db = Db::default();
    db.set("k".to_string(), string("v"));
    assert_eq!(db.del("k"), Some(string("v")));
    assert_eq!(db.del("k"), None);
    assert!(!db.key_exists("k"));
}

#[test]
fn exists_tracks_set_and_del() {
    let mut db = Db::default();
    assert!(!db.key_exists("k"));
    db.set("k".to_string(), string("v"));
    assert!(db.key_exists("k"));
}

#[test]
fn type_of_names_the_kind_of_value() {
    let mut db = Db::default();
    db.set("k".to_string(), string("v"));
    assert_eq!(db.type_of("k"), Some("string"));
    assert_eq!(db.type_of("missing"), None);
}

#[test]
fn values_do_not_have_to_be_valid_utf8() {
    let mut db = Db::default();
    let bytes = RedisValue::String(vec![0xff, 0x00, 0xfe]);
    db.set(
        "blob".to_string(),
        RedisValue::String(vec![0xff, 0x00, 0xfe]),
    );
    assert_eq!(db.get("blob"), Some(&bytes));
}

#[test]
fn type_label_of_a_string_value_is_string() {
    assert_eq!(string("hi").type_label(), "string");
}

#[test]
fn keys_are_told_apart_by_their_text() {
    let mut db = Db::default();
    db.set("é".to_string(), string("1"));
    assert!(db.key_exists("é"));
    assert!(!db.key_exists("e"));
    assert_eq!(db.del("e"), None);
    assert_eq!(db.get("é"), Some(&string("1")));
}

#[test]
fn a_key_holds_its_last_set_through_a_run_of_changes() {
    let mut db = Db::default();
    db.set("a".to_string(), string("1"));
    db.set("b".to_string(), string("x"));
    db.del("b");
    db.set("a".to_string(), string("2"));
    db.set("c".to_string(), string("y"));
    db.del("c");
    db.set("b".to_string(), string("z"));
    db.del("nope");
    assert_eq!(db.get("a"), Some(&string("2")));
    assert_eq!(db.get("b"), Some(&string("z")));
    assert_eq!(db.get("c"), None);
    assert!(db.key_exists("a"));
    assert!(db.key_exists("b"));
    assert!(!db.key_exists("c"));
    assert!(!db.key_exists("nope"));
}
