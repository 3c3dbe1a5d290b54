use vzglyd_kernel::management::secrets::{SecretsError, SecretsStore, SECRETS_FILENAME};
use vzglyd_kernel::string_map::StrMap;

#[test]
fn round_trip_json() {
    let mut store = SecretsStore::default();
    store.0.insert("LASTFM_API_KEY".into(), "abc123".into());
    store.0.insert("OTHER_KEY".into(), "xyz".into());

    let json = store.to_json().expect("serialize");
    let restored = SecretsStore::from_json(&json).expect("deserialize");

    assert_eq!(store, restored);
}

#[test]
fn keys_returns_sorted_names_only() {
    let mut store = SecretsStore::default();
    store.0.insert("Z_KEY".into(), "secret_z".into());
    store.0.insert("A_KEY".into(), "secret_a".into());

    let keys = store.keys();
    assert_eq!(keys, vec!["A_KEY", "Z_KEY"]);
}

#[test]
fn merge_overwrites_existing() {
    let mut base = SecretsStore::default();
    base.0.insert("KEY".into(), "old".into());

    let mut patch = SecretsStore::default();
    patch.0.insert("KEY".into(), "new".into());
    patch.0.insert("OTHER".into(), "extra".into());

    base.merge(patch);

    assert_eq!(base.0.get("KEY"), Some("new"));
    assert_eq!(base.0.get("OTHER"), Some("extra"));
    assert_eq!(base.len(), 2);
}

#[test]
fn invalid_json_returns_error() {
    assert!(SecretsStore::from_json("not json").is_err());
}

#[test]
fn non_string_values_return_error() {
    // JSON object with integer value should fail (expects a map of strings)
    assert!(SecretsStore::from_json(r#"{"KEY": 123}"#).is_err());
}

#[test]
fn to_json_writes_pretty_object_in_key_order() {
    let mut store = SecretsStore::default();
    store.0.insert("B".into(), "2".into());
    store.0.insert("A".into(), "1".into());
    let json = store.to_json().expect("serialize");
    assert_eq!(json, "{\n  \"A\": \"1\",\n  \"B\": \"2\"\n}");
}

#[test]
fn to_json_of_empty_store_is_empty_object() {
    let store = SecretsStore::default();
    assert_eq!(store.to_json().expect("serialize"), "{}");
}

#[test]
fn round_trip_keeps_escaped_text() {
    let mut store = SecretsStore::default();
    store.0.insert("quote\"key".into(), "line\nbreak \u{e9}".into());
    let json = store.to_json().expect("serialize");
    let restored = SecretsStore::from_json(&json).expect("deserialize");
    assert_eq!(restored.0.get("quote\"key"), Some("line\nbreak \u{e9}"));
    assert_eq!(store, restored);
}

#[test]
fn from_json_reads_members() {
    let store = SecretsStore::from_json(r#"{"LASTFM_API_KEY": "abc", "X": ""}"#).expect("parse");
    assert_eq!(store.len(), 2);
    assert_eq!(store.0.get("LASTFM_API_KEY"), Some("abc"));
    assert_eq!(store.0.get("X"), Some(""));
    assert_eq!(store.0.get("Y"), None);
}

#[test]
fn from_json_later_duplicate_wins() {
    let store = SecretsStore::from_json(r#"{"K": "first", "K": "second"}"#).expect("parse");
    assert_eq!(store.len(), 1);
    assert_eq!(store.0.get("K"), Some("second"));
}

#[test]
fn from_json_errors_are_parse_errors() {
    assert!(matches!(SecretsStore::from_json("[1, 2]"), Err(SecretsError::Parse(_))));
    match SecretsStore::from_json("{\"a\": \"b\"} trailing") {
        Err(SecretsError::Parse(e)) => {
            assert_eq!(e.line(), 1);
            assert!(e.column() > 0);
        }
        _ => panic!("expected a parse error"),
    }
}

#[test]
fn empty_store_and_len() {
    let mut store = SecretsStore::default();
    assert!(store.is_empty());
    assert_eq!(store.len(), 0);
    store.0.insert("K".into(), "v".into());
    assert!(!store.is_empty());
    assert_eq!(store.len(), 1);
    store.0.insert("K".into(), "w".into());
    assert_eq!(store.len(), 1);
}

#[test]
fn keys_follow_byte_order() {
    let mut store = SecretsStore::default();
    store.0.insert("\u{e9}t\u{e9}".into(), "1".into());
    store.0.insert("ab".into(), "2".into());
    store.0.insert("a".into(), "3".into());
    store.0.insert("Z".into(), "4".into());
    store.0.insert("z".into(), "5".into());
    assert_eq!(store.keys(), vec!["Z", "a", "ab", "z", "\u{e9}t\u{e9}"]);
}

#[test]
fn merge_keeps_keys_of_both() {
    let mut base = SecretsStore::default();
    base.0.insert("A".into(), "a".into());
    base.0.insert("C".into(), "c".into());
    let mut patch = SecretsStore::default();
    patch.0.insert("B".into(), "b".into());
    base.merge(patch);
    assert_eq!(base.keys(), vec!["A", "B", "C"]);
    assert_eq!(base.0.get("A"), Some("a"));
    assert_eq!(base.0.get("B"), Some("b"));
}

#[test]
fn stores_equal_regardless_of_insertion_order() {
    let mut a = SecretsStore::default();
    a.0.insert("X".into(), "1".into());
    a.0.insert("Y".into(), "2".into());
    let mut b = SecretsStore::default();
    b.0.insert("Y".into(), "2".into());
    b.0.insert("X".into(), "1".into());
    assert_eq!(a, b);
    b.0.insert("X".into(), "9".into());
    assert_ne!(a, b);
}

#[test]
fn insert_returns_replaced_value() {
    let mut m = StrMap::new();
    assert_eq!(m.insert("k".into(), "v1".into()), None);
    assert_eq!(m.insert("k".into(), "v2".into()), Some("v1".to_string()));
    assert!(m.contains_key("k"));
    assert!(!m.contains_key("q"));
}

#[test]
fn secrets_filename() {
    assert_eq!(SECRETS_FILENAME, "secrets.json");
}

#[test]
fn to_json_never_fails() {
    let mut store = SecretsStore::default();
    store.0.insert("\u{0}ctl\t".into(), "\\back\"slash\u{1F600}".into());
    assert!(store.to_json().is_ok());
}
