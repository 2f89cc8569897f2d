use pirs::environ::Environ;
use pirs::json::{parse_json, Json};
use pirs::text::slice::slice_of;
use pirs::text::table::Table;

#[test]
fn json_is_read_and_written() {
    let j = parse_json("{\"b\": [1, -2, 18446744073709551615, 1.5], \"a\": null, \"c\": true}").unwrap();
    assert_eq!(
        j.to_text(),
        "{\"a\":null,\"b\":[1,-2,18446744073709551615,1.5],\"c\":true}"
    );
    assert_eq!(j.pointer("/b/1").unwrap().as_i64(), Some(-2));
    assert_eq!(j.pointer("/b/2").unwrap().as_u64(), Some(u64::MAX));
    assert_eq!(j.pointer("/b/2").unwrap().as_i64(), None);
    assert!(j.pointer("/b/01").is_none());
    assert!(j.pointer("b").is_none());
    assert_eq!(j.get("c").unwrap().as_bool(), Some(true));
    assert!(parse_json("{").is_none());
    let twice = parse_json("{\"k\": 1, \"k\": 2}").unwrap();
    assert_eq!(twice.get("k").unwrap().as_u64(), Some(2));
    assert_eq!(Json::Text("a/\u{7}".into()).to_text(), "\"a/\\u0007\"");
}

#[test]
fn a_table_is_kept_in_order() {
    let mut t: Table<u64> = Table::new();
    t.insert("b", 1);
    t.insert("a", 2);
    t.insert("b", 3);
    assert_eq!(t.len(), 2);
    assert_eq!(t.keys(), vec!["a", "b"]);
    assert_eq!(t.get("b"), Some(&3));
    assert!(t.remove("a"));
    assert!(!t.remove("a"));
    assert!(!t.contains("a"));
}

#[test]
fn a_slice_cuts_between_characters() {
    assert_eq!(slice_of("añb", 0, 3), "añ");
    assert_eq!(slice_of("añb", 1, 3), "ñ");
    assert_eq!(slice_of("añb", 2, 3), "");
    assert_eq!(slice_of("añb", 3, 1), "");
    assert_eq!(slice_of("añb", 0, 9), "");
    assert_eq!(slice_of("añb", 4, 4), "");
}

#[test]
fn an_environment_holds_variables() {
    let mut e = Environ::new();
    assert!(!e.is_set("A"));
    e.set_var("A", "");
    assert!(e.is_set("A"));
    assert_eq!(e.var("A"), Some(""));
    assert_eq!(e.value("A"), None);
    e.set_var("A", "x");
    assert_eq!(e.value("A"), Some("x"));
}
