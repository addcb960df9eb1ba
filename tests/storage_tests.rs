use rcli::error::AppError;
use rcli::keys::{file_name_for_key, key_lt, key_of_file_name, sanitize_key};
use rcli::storage::{indent, render_record, Storage, StoredItem, Timestamp};
use serde_json::Value;

fn json(text: &str) -> Value {
    serde_json::from_str(text).unwrap()
}

fn at(micros: i64, text: &str) -> Timestamp {
    Timestamp { micros, rfc3339: text.to_string() }
}

#[test]
fn store_then_get_returns_the_value() {
    let mut s = Storage::new("data".to_string(), 1);
    let v = json(r#"{"name": "test", "value": 42}"#);
    let stored = s.store("test_key".to_string(), v.clone()).unwrap();
    assert_eq!(stored.value, v);
    assert_eq!(stored.id.len(), 36);
    let got = s.get("test_key").unwrap();
    assert_eq!(got.value, v);
    assert_eq!(got.id, stored.id);
    assert_eq!(got.key, "test_key");
}

#[test]
fn store_twice_keeps_identity() {
    let mut s = Storage::new("data".to_string(), 1);
    let first = s
        .store_at("k".to_string(), json("1"), at(10, "t10"), "id-1".to_string())
        .unwrap();
    let second = s
        .store_at("k".to_string(), json("2"), at(20, "t20"), "id-2".to_string())
        .unwrap();
    assert_eq!(second.id, "id-1");
    assert_eq!(first.id, second.id);
    assert_eq!(second.created_at.micros, 10);
    assert_eq!(second.created_at.rfc3339, "t10");
    assert_eq!(second.updated_at.micros, 20);
    assert_eq!(second.value, json("2"));
    assert_eq!(s.get("k").unwrap().value, json("2"));
}

#[test]
fn store_twice_with_the_clock_keeps_created_at() {
    let mut s = Storage::new("data".to_string(), 1);
    let first = s.store("k".to_string(), json("1")).unwrap();
    let second = s.store("k".to_string(), json("2")).unwrap();
    assert_eq!(first.id, second.id);
    assert_eq!(first.created_at.micros, second.created_at.micros);
    assert!(second.updated_at.micros >= first.updated_at.micros);
}

#[test]
fn delete_of_a_missing_key_is_not_found() {
    let mut s = Storage::new("data".to_string(), 1);
    match s.delete("nonexistent_key") {
        Err(AppError::NotFound { resource }) => assert_eq!(resource, "key 'nonexistent_key'"),
        _ => panic!("expected NotFound"),
    }
}

#[test]
fn get_after_delete_is_not_found() {
    let mut s = Storage::new("data".to_string(), 1);
    s.store("k".to_string(), json("true")).unwrap();
    assert!(s.has_record("k"));
    s.delete("k").unwrap();
    assert!(!s.has_record("k"));
    assert!(matches!(s.get("k"), Err(AppError::NotFound { .. })));
}

#[test]
fn list_is_sorted_and_unique() {
    let mut s = Storage::new("data".to_string(), 1);
    assert!(s.list().is_empty());
    for k in ["pear", "apple", "b", "apple", "a/b", "Zed"] {
        s.store(k.to_string(), json("0")).unwrap();
    }
    assert_eq!(s.list(), vec!["Zed", "a_b", "apple", "b", "pear"]);
}

#[test]
fn oversized_record_is_rejected_and_nothing_changes() {
    let mut s = Storage::new("data".to_string(), 0);
    match s.store("k".to_string(), json("1")) {
        Err(AppError::Validation { message }) => {
            assert_eq!(message, "Data size exceeds maximum allowed size of 0 MB")
        }
        _ => panic!("expected Validation"),
    }
    assert!(s.list().is_empty());
    assert!(!s.has_record("k"));
}

#[test]
fn oversized_update_keeps_the_old_record() {
    let mut s = Storage::new("data".to_string(), 1);
    s.store_at("k".to_string(), json("1"), at(1, "t1"), "id".to_string()).unwrap();
    let before = s.contents_of("k").unwrap();
    let big = Value::String("x".repeat(1024 * 1024));
    assert!(matches!(
        s.store_at("k".to_string(), big, at(2, "t2"), "other".to_string()),
        Err(AppError::Validation { .. })
    ));
    assert_eq!(s.contents_of("k").unwrap(), before);
    assert_eq!(s.get("k").unwrap().value, json("1"));
}

#[test]
fn end_to_end_scenario() {
    let mut s = Storage::new("data".to_string(), 100);
    let a = s.store("a".to_string(), json(r#"{"x":1}"#)).unwrap();
    assert_eq!(a.value, json(r#"{"x":1}"#));
    let b = s.store("a".to_string(), json(r#"{"x":2}"#)).unwrap();
    assert_eq!(b.id, a.id);
    assert_eq!(b.value, json(r#"{"x":2}"#));
    assert_eq!(s.list(), vec!["a"]);
    assert!(s.delete("a").is_ok());
    assert!(matches!(s.get("a"), Err(AppError::NotFound { .. })));
}

#[test]
fn keys_are_sanitized() {
    assert_eq!(sanitize_key(r#"a/b\c:d*e?f"g<h>i|j"#), "a_b_c_d_e_f_g_h_i_j");
    assert_eq!(sanitize_key("plain-key.1"), "plain-key.1");
    assert_eq!(sanitize_key("ünï/cödé"), "ünï_cödé");
    assert_eq!(file_name_for_key("a:b"), "a_b.json");
}

#[test]
fn colliding_keys_share_one_record() {
    let mut s = Storage::new("data".to_string(), 1);
    s.store("a/b".to_string(), json("1")).unwrap();
    let second = s.store("a:b".to_string(), json("2")).unwrap();
    assert_eq!(second.key, "a/b");
    assert_eq!(s.list(), vec!["a_b"]);
    assert_eq!(s.get("a_b").unwrap().value, json("2"));
}

#[test]
fn file_paths_join_the_directory() {
    let s = Storage::new("data".to_string(), 1);
    assert_eq!(s.get_file_path("a/b"), "data/a_b.json");
    let s = Storage::new("data/".to_string(), 1);
    assert_eq!(s.get_file_path("k"), "data/k.json");
    let s = Storage::new(String::new(), 1);
    assert_eq!(s.get_file_path("k"), "k.json");
}

#[test]
fn file_names_give_keys() {
    assert_eq!(key_of_file_name("abc.json"), Some("abc".to_string()));
    assert_eq!(key_of_file_name("a.b.json"), Some("a.b".to_string()));
    assert_eq!(key_of_file_name(".json"), None);
    assert_eq!(key_of_file_name("abc.txt"), None);
    assert_eq!(key_of_file_name("json"), None);
}

#[test]
fn keys_order_by_code_point() {
    assert!(key_lt("a", "b"));
    assert!(key_lt("a", "ab"));
    assert!(!key_lt("ab", "a"));
    assert!(!key_lt("a", "a"));
    assert!(key_lt("Z", "a"));
    assert!(key_lt("z", "é"));
}

#[test]
fn record_text_matches_pretty_json() {
    let item = StoredItem {
        id: "i\"d".to_string(),
        key: "k".to_string(),
        value: json(r#"{"x":[1,2]}"#),
        created_at: at(0, "2024-01-01T00:00:00Z"),
        updated_at: at(0, "2024-01-02T00:00:00Z"),
        metadata: vec![("a".to_string(), "b".to_string()), ("c".to_string(), "d".to_string())],
    };
    let expected = "{\n  \"id\": \"i\\\"d\",\n  \"key\": \"k\",\n  \"value\": {\n    \"x\": [\n      1,\n      2\n    ]\n  },\n  \"created_at\": \"2024-01-01T00:00:00Z\",\n  \"updated_at\": \"2024-01-02T00:00:00Z\",\n  \"metadata\": {\n    \"a\": \"b\",\n    \"c\": \"d\"\n  }\n}";
    assert_eq!(render_record(&item), expected);
}

#[test]
fn stored_contents_are_the_record_text() {
    let mut s = Storage::new("data".to_string(), 1);
    let item = s
        .store_at("k".to_string(), json("[]"), at(5, "T"), "id".to_string())
        .unwrap();
    let expected = "{\n  \"id\": \"id\",\n  \"key\": \"k\",\n  \"value\": [],\n  \"created_at\": \"T\",\n  \"updated_at\": \"T\",\n  \"metadata\": {}\n}";
    assert_eq!(s.contents_of("k").unwrap(), expected);
    assert_eq!(render_record(&item), expected);
    assert_eq!(s.contents_of("other"), None);
}

#[test]
fn indent_nests_lines() {
    assert_eq!(indent("a\nb\n"), "a\n  b\n  ");
    assert_eq!(indent(""), "");
}

#[test]
fn loaded_files_are_kept_and_unreadable_ones_fail() {
    let mut s = Storage::new("data".to_string(), 1);
    assert!(!s.load_file("notes.txt", "x".to_string(), Err("bad".to_string())));
    assert!(s.load_file("bad.json", "{".to_string(), Err("EOF".to_string())));
    let good = StoredItem {
        id: "g".to_string(),
        key: "good".to_string(),
        value: json("3"),
        created_at: at(1, "t"),
        updated_at: at(1, "t"),
        metadata: vec![("m".to_string(), "n".to_string())],
    };
    assert!(s.load_file("good.json", "text".to_string(), Ok(good)));
    assert_eq!(s.list(), vec!["bad", "good"]);
    assert_eq!(s.get("bad").err(), Some(AppError::Json { message: "EOF".to_string() }));
    assert!(matches!(s.store("bad".to_string(), json("1")), Err(AppError::Json { .. })));
    assert_eq!(s.get("good").unwrap().value, json("3"));
    assert_eq!(
        s.get_metadata("good").unwrap(),
        vec![("m".to_string(), "n".to_string())]
    );
    assert!(matches!(s.get_metadata("none"), Err(AppError::NotFound { .. })));
}

#[test]
fn storage_info_totals_the_files() {
    let mut s = Storage::new("dir".to_string(), 7);
    s.load_file("a.json", "12345".to_string(), Err("x".to_string()));
    s.load_file("b.json", "é".to_string(), Err("x".to_string()));
    let info = s.get_storage_info();
    assert_eq!(info.data_dir, "dir");
    assert_eq!(info.file_count, 2);
    assert_eq!(info.total_size_bytes, 7);
    assert_eq!(info.max_file_size_mb, 7);
    assert_eq!(s.max_file_size_mb(), 7);
    assert_eq!(s.data_dir(), "dir");
}

#[test]
fn new_records_and_updates() {
    let item = StoredItem::new("k".to_string(), json("1"));
    assert_eq!(item.id.len(), 36);
    assert_eq!(item.created_at.micros, item.updated_at.micros);
    assert!(item.metadata.is_empty());
    let other = StoredItem::new("k".to_string(), json("1"));
    assert_ne!(item.id, other.id);
    let mut fixed = StoredItem::new_at("k".to_string(), json("1"), at(3, "t3"), "x".to_string());
    fixed.update_value_at(json("2"), at(4, "t4"));
    assert_eq!(fixed.value, json("2"));
    assert_eq!(fixed.updated_at.micros, 4);
    assert_eq!(fixed.created_at.micros, 3);
    assert_eq!(fixed.id, "x");
    fixed.update_value(json("5"));
    assert_eq!(fixed.value, json("5"));
    assert_eq!(fixed.created_at.micros, 3);
}
