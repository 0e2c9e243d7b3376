use blazingly_json::map::{compare_bytes, KeyOrder, ObjectMap};

#[test]
fn insert_get_and_replace() {
    let mut map: ObjectMap<u64> = ObjectMap::new();
    assert!(map.is_empty());
    assert_eq!(map.insert("key".to_string(), 1), None);
    assert_eq!(map.insert("key".to_string(), 2), Some(1));
    assert_eq!(map.get("key"), Some(&2));
    assert_eq!(map.get("missing"), None);
    assert_eq!(map.len(), 1);
}

#[test]
fn remove_takes_the_value_out() {
    let mut map: ObjectMap<&str> = ObjectMap::new();
    map.insert("b".to_string(), "bee");
    map.insert("a".to_string(), "ay");
    assert_eq!(map.remove("a"), Some("ay"));
    assert_eq!(map.remove("a"), None);
    assert_eq!(map.get("b"), Some(&"bee"));
    assert_eq!(map.len(), 1);
}

#[test]
fn get_mut_changes_the_value_in_place() {
    let mut map: ObjectMap<Vec<u8>> = ObjectMap::new();
    map.insert("bytes".to_string(), vec![1]);
    map.get_mut("bytes").unwrap().push(2);
    assert_eq!(map.get("bytes"), Some(&vec![1, 2]));
    assert!(map.get_mut("other").is_none());
}

#[test]
fn entry_inserts_only_when_absent() {
    let mut map: ObjectMap<u64> = ObjectMap::new();
    *map.entry("hits".to_string()).or_insert(0) += 1;
    *map.entry("hits".to_string()).or_insert(0) += 1;
    assert_eq!(map.get("hits"), Some(&2));
    assert_eq!(map.entry("other".to_string()).key(), "other");
}

#[test]
fn many_keys_stay_distinct() {
    let mut map: ObjectMap<usize> = ObjectMap::new();
    let keys = ["m", "a", "z", "ab", "", "é", "aa", "b"];
    for (index, key) in keys.iter().enumerate() {
        map.insert(key.to_string(), index);
    }
    assert_eq!(map.len(), keys.len());
    for (index, key) in keys.iter().enumerate() {
        assert_eq!(map.get(key), Some(&index));
    }
}

#[test]
fn keys_compare_byte_by_byte() {
    assert_eq!(compare_bytes(b"a", b"b"), KeyOrder::Before);
    assert_eq!(compare_bytes(b"ab", b"a"), KeyOrder::After);
    assert_eq!(compare_bytes(b"", b""), KeyOrder::Same);
    assert_eq!(compare_bytes(b"z", "é".as_bytes()), KeyOrder::Before);
}

#[test]
fn duplicate_keys_keep_the_last_value() {
    let mut map: ObjectMap<u64> = ObjectMap::new();
    map.insert("key".to_string(), 1);
    map.insert("key".to_string(), 2);
    assert_eq!(map.get("key"), Some(&2));
    assert_eq!(map.len(), 1);
}

#[test]
fn counts_follow_inserts_removals_and_entries() {
    let mut map = ObjectMap::new();
    assert_eq!(map.insert("a".to_string(), 1), None);
    assert_eq!(map.len(), 1);
    assert_eq!(map.insert("a".to_string(), 2), Some(1));
    assert_eq!(map.len(), 1);
    *map.entry("b".to_string()).or_insert(0) += 5;
    assert_eq!(map.len(), 2);
    *map.entry("b".to_string()).or_insert(0) += 5;
    assert_eq!(map.len(), 2);
    assert_eq!(map.get("b"), Some(&10));
    assert_eq!(map.remove("a"), Some(2));
    assert_eq!(map.len(), 1);
    assert_eq!(map.remove("a"), None);
    assert_eq!(map.len(), 1);
}
