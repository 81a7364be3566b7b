use hashymap::codec::MalformedDatabase;
use hashymap::hash::str_to_hash;
use hashymap::store::read_database;
use hashymap::store::read_default;
use hashymap::store::valid_default_path;
use hashymap::table::HashyMap;

#[test]
fn hash_is_deterministic() {
    let a = str_to_hash("some label");
    let b = str_to_hash("some label");
    assert_eq!(a, b);
    assert_eq!(str_to_hash(""), str_to_hash(""));
}

#[test]
fn hash_of_empty_label_is_zero() {
    assert_eq!(str_to_hash(""), 0);
}

#[test]
fn hash_by_hand() {
    // "a" is code point 97: rotate(0) = 0, 0 + 97 = 97.
    assert_eq!(str_to_hash("a"), 97);
    // "ab": rotate(97) = 2147483696 (low bit wraps to the top), + 98.
    assert_eq!(str_to_hash("ab"), 2147483794);
    // "ba": rotate(98) = 49, + 97.
    assert_eq!(str_to_hash("ba"), 146);
    assert_ne!(str_to_hash("ab"), str_to_hash("ba"));
}

#[test]
fn hash_collision_by_hand() {
    // rotate(2) = 1 and 1 + 96 = 97, so this two-character label collides
    // with "a": collisions are expected and bucket under one key.
    assert_eq!(str_to_hash("\u{0002}`"), 97);
    assert_eq!(str_to_hash("\u{0002}`"), str_to_hash("a"));
}

#[test]
fn insert_then_lookup_appends_in_order() {
    let mut db = HashyMap::new();
    db.add_value(5, "first".to_string());
    db.add_value(5, "second".to_string());
    db.add_value(5, "third".to_string());
    let values = db.find_values(5);
    assert_eq!(values, vec!["first".to_string(), "second".to_string(), "third".to_string()]);
    db.add_value(5, "fourth".to_string());
    let values = db.find_values(5);
    assert_eq!(values.len(), 4);
    assert_eq!(values[3], "fourth".to_string());
    assert_eq!(&values[..3], &["first".to_string(), "second".to_string(), "third".to_string()]);
}

#[test]
fn duplicate_values_are_kept() {
    let mut db = HashyMap::new();
    db.add_value(1, "x".to_string());
    db.add_value(1, "x".to_string());
    assert_eq!(db.find_values(1), vec!["x".to_string(), "x".to_string()]);
}

#[test]
fn lookup_of_absent_key_is_empty() {
    let db = HashyMap::new();
    assert!(db.find_values(123).is_empty());
}

#[test]
fn delete_then_lookup_is_empty() {
    let mut db = HashyMap::new();
    db.add_value(9, "one".to_string());
    db.add_value(9, "two".to_string());
    db.remove_value(9);
    assert!(db.find_values(9).is_empty());
}

#[test]
fn delete_of_absent_key_keeps_encoding() {
    let mut db = HashyMap::new();
    db.add_value(42, "a".to_string());
    db.add_value(7, "c".to_string());
    let before = db.to_string();
    db.remove_value(1000);
    assert_eq!(db.to_string(), before);
}

#[test]
fn encode_by_hand() {
    let mut db = HashyMap::new();
    db.add_value(42, "a".to_string());
    db.add_value(42, "b".to_string());
    db.add_value(7, "c".to_string());
    assert_eq!(db.to_string(), "42:a:b|7:c".to_string());
}

#[test]
fn encode_of_empty_table_is_empty() {
    let db = HashyMap::new();
    assert_eq!(db.to_string(), "".to_string());
}

#[test]
fn round_trip_keeps_keys_values_and_order() {
    let mut db = HashyMap::new();
    db.add_value(42, "a".to_string());
    db.add_value(42, "b".to_string());
    db.add_value(7, "c".to_string());
    let blob = db.to_string();
    let back = HashyMap::from_string(blob).unwrap();
    assert_eq!(back.table, db.table);
    assert_eq!(back.to_string(), "42:a:b|7:c".to_string());
}

#[test]
fn round_trip_of_empty_value_field() {
    let mut db = HashyMap::new();
    db.add_value(42, "".to_string());
    let blob = db.to_string();
    assert_eq!(blob, "42:".to_string());
    let back = HashyMap::from_string(blob).unwrap();
    assert_eq!(back.find_values(42), vec!["".to_string()]);
}

#[test]
fn round_trip_of_largest_key() {
    let back = HashyMap::from_string("4294967295:x".to_string()).unwrap();
    assert_eq!(back.find_values(u32::MAX), vec!["x".to_string()]);
    assert_eq!(back.to_string(), "4294967295:x".to_string());
}

#[test]
fn fruit_scenario() {
    let mut db = HashyMap::new();
    db.add_value(str_to_hash("fruit"), "apple".to_string());
    db.add_value(str_to_hash("fruit"), "banana".to_string());
    let blob = db.to_string();
    let back = HashyMap::from_string(blob).unwrap();
    let values = back.find_values(str_to_hash("fruit"));
    assert_eq!(values, vec!["apple".to_string(), "banana".to_string()]);
}

#[test]
fn insert_delete_lookup_scenario() {
    let mut db = HashyMap::new();
    db.add_value(str_to_hash("a"), "x".to_string());
    db.remove_value(str_to_hash("a"));
    let values = db.find_values(str_to_hash("a"));
    assert_eq!(values, Vec::<String>::new());
}

#[test]
fn malformed_key_is_an_error_not_a_crash() {
    let r = HashyMap::from_string("notanumber:x".to_string());
    assert_eq!(r.unwrap_err(), MalformedDatabase { entry_index: 0 });
}

#[test]
fn entry_without_values_is_an_error() {
    let r = HashyMap::from_string("42".to_string());
    assert_eq!(r.unwrap_err(), MalformedDatabase { entry_index: 0 });
    let r = HashyMap::from_string("42:a|".to_string());
    assert_eq!(r.unwrap_err(), MalformedDatabase { entry_index: 1 });
}

#[test]
fn oversized_key_is_an_error() {
    let r = HashyMap::from_string("4294967296:x".to_string());
    assert_eq!(r.unwrap_err(), MalformedDatabase { entry_index: 0 });
}

#[test]
fn repeated_key_is_an_error() {
    let r = HashyMap::from_string("1:a|2:b|1:c".to_string());
    assert_eq!(r.unwrap_err(), MalformedDatabase { entry_index: 2 });
}

#[test]
fn error_names_the_first_bad_entry() {
    let r = HashyMap::from_string("1:a|bad:x|2:b".to_string());
    assert_eq!(r.unwrap_err(), MalformedDatabase { entry_index: 1 });
}

#[test]
fn read_database_of_empty_blob_is_the_empty_table() {
    let db = read_database("".to_string()).unwrap();
    assert!(db.table.is_empty());
}

#[test]
fn read_database_decodes_a_blob() {
    let db = read_database("42:a:b|7:c".to_string()).unwrap();
    assert_eq!(db.find_values(42), vec!["a".to_string(), "b".to_string()]);
    assert_eq!(db.find_values(7), vec!["c".to_string()]);
}

#[test]
fn read_database_reports_malformed_blobs() {
    assert!(read_database("notanumber:x".to_string()).is_err());
}

#[test]
fn read_default_falls_back_to_the_literal_path() {
    assert_eq!(read_default("".to_string()), "database".to_string());
    assert_eq!(read_default("else/where".to_string()), "else/where".to_string());
}

#[test]
fn empty_path_is_rejected_for_the_indirection_file() {
    assert!(!valid_default_path(""));
    assert!(valid_default_path("database"));
}
