use containers::hash_map::HashMap;

#[test]
fn len_returns_zero_for_new_hash_map() {
    let h = HashMap::<String, String>::new();
    assert_eq!(h.len(), 0);
}

#[test]
fn is_empty_returns_true_for_new_hash_map() {
    let h = HashMap::<String, String>::new();
    assert!(h.is_empty());
}

#[test]
fn insert_increases_len_from_zero_to_one() {
    let mut h = HashMap::<String, String>::new();
    h.insert("a".to_string(), "1".to_string());
    assert_eq!(h.len(), 1);
    assert!(!h.is_empty());
}

#[test]
fn insert_multiple_distinct_keys_increases_len_each_time() {
    let mut h = HashMap::<String, String>::new();
    h.insert("a".to_string(), "1".to_string());
    h.insert("b".to_string(), "2".to_string());
    h.insert("c".to_string(), "3".to_string());
    assert_eq!(h.len(), 3);
}

#[test]
fn insert_same_key_twice_does_not_increase_len() {
    let mut h = HashMap::<String, String>::new();
    h.insert("a".to_string(), "1".to_string());
    h.insert("a".to_string(), "2".to_string());
    assert_eq!(h.len(), 1);
}

#[test]
fn insert_same_key_many_times_keeps_len_one() {
    let mut h = HashMap::<String, String>::new();
    for i in 0..50 {
        h.insert("a".to_string(), i.to_string());
    }
    assert_eq!(h.len(), 1);
    assert!(!h.is_empty());
}

#[test]
fn insert_many_keys_len_matches_count() {
    let mut h = HashMap::<String, String>::new();
    for i in 0..100 {
        h.insert(format!("k{i}"), format!("v{i}"));
    }
    assert_eq!(h.len(), 100);
}

#[test]
fn get_returns_none_for_empty_hash_map() {
    let h = HashMap::<String, String>::new();
    assert!(h.get("a".to_string()).is_none());
}

#[test]
fn get_returns_some_after_insert() {
    let mut h = HashMap::<String, String>::new();
    h.insert("a".to_string(), "1".to_string());
    assert_eq!(h.get("a".to_string()), Some(&"1".to_string()));
}

#[test]
fn get_returns_none_for_missing_key() {
    let mut h = HashMap::<String, String>::new();
    h.insert("a".to_string(), "1".to_string());
    assert!(h.get("b".to_string()).is_none());
}

#[test]
fn get_returns_updated_value_for_same_key() {
    let mut h = HashMap::<String, String>::new();
    h.insert("a".to_string(), "1".to_string());
    h.insert("a".to_string(), "2".to_string());
    assert_eq!(h.get("a".to_string()), Some(&"2".to_string()));
}

#[test]
fn get_works_for_many_keys() {
    let mut h = HashMap::<String, String>::new();
    for i in 0..100 {
        h.insert(format!("k{i}"), format!("v{i}"));
    }
    assert_eq!(h.get("k0".to_string()), Some(&"v0".to_string()));
    assert_eq!(h.get("k50".to_string()), Some(&"v50".to_string()));
    assert_eq!(h.get("k99".to_string()), Some(&"v99".to_string()));
    assert!(h.get("k100".to_string()).is_none());
}

#[test]
fn remove_returns_none_for_empty_hash_map() {
    let mut h = HashMap::<String, String>::new();
    assert!(h.remove("a".to_string()).is_none());
    assert_eq!(h.len(), 0);
    assert!(h.is_empty());
}

#[test]
fn remove_returns_some_and_decreases_len() {
    let mut h = HashMap::<String, String>::new();
    h.insert("a".to_string(), "1".to_string());

    let removed = h.remove("a".to_string());
    assert_eq!(removed, Some("1".to_string()));
    assert_eq!(h.len(), 0);
    assert!(h.is_empty());
}

#[test]
fn remove_missing_key_returns_none_and_len_unchanged() {
    let mut h = HashMap::<String, String>::new();
    h.insert("a".to_string(), "1".to_string());
    h.insert("b".to_string(), "2".to_string());

    let removed = h.remove("c".to_string());
    assert!(removed.is_none());
    assert_eq!(h.len(), 2);
}

#[test]
fn remove_then_get_returns_none() {
    let mut h = HashMap::<String, String>::new();
    h.insert("a".to_string(), "1".to_string());

    assert!(h.remove("a".to_string()).is_some());
    assert!(h.get("a".to_string()).is_none());
    assert_eq!(h.len(), 0);
}

#[test]
fn remove_only_removes_one_key() {
    let mut h = HashMap::<String, String>::new();
    h.insert("a".to_string(), "1".to_string());
    h.insert("b".to_string(), "2".to_string());
    h.insert("c".to_string(), "3".to_string());

    assert_eq!(h.remove("b".to_string()), Some("2".to_string()));
    assert_eq!(h.len(), 2);

    assert_eq!(h.get("a".to_string()), Some(&"1".to_string()));
    assert!(h.get("b".to_string()).is_none());
    assert_eq!(h.get("c".to_string()), Some(&"3".to_string()));
}

#[test]
fn remove_same_key_twice_second_time_returns_none() {
    let mut h = HashMap::<String, String>::new();
    h.insert("a".to_string(), "1".to_string());

    assert_eq!(h.remove("a".to_string()), Some("1".to_string()));
    assert!(h.remove("a".to_string()).is_none());
    assert_eq!(h.len(), 0);
}

#[test]
fn remove_many_keys_len_matches_remaining() {
    let mut h = HashMap::<String, String>::new();

    for i in 0..50 {
        h.insert(format!("k{i}"), format!("v{i}"));
    }
    assert_eq!(h.len(), 50);

    for i in 0..20 {
        assert_eq!(h.remove(format!("k{i}")), Some(format!("v{i}")));
    }

    assert_eq!(h.len(), 30);
    for i in 0..20 {
        assert!(h.get(format!("k{i}")).is_none());
    }
    for i in 20..50 {
        assert_eq!(h.get(format!("k{i}")), Some(&format!("v{i}")));
    }
}

#[test]
fn contains_returns_false_for_empty_hash_map() {
    let h = HashMap::<String, String>::new();
    assert!(!h.contains("a".to_string()));
}

#[test]
fn contains_returns_true_after_insert() {
    let mut h = HashMap::<String, String>::new();
    h.insert("a".to_string(), "1".to_string());
    assert!(h.contains("a".to_string()));
}

#[test]
fn contains_returns_false_for_missing_key() {
    let mut h = HashMap::<String, String>::new();
    h.insert("a".to_string(), "1".to_string());
    assert!(!h.contains("b".to_string()));
}

#[test]
fn contains_still_true_after_value_update_same_key() {
    let mut h = HashMap::<String, String>::new();
    h.insert("a".to_string(), "1".to_string());
    h.insert("a".to_string(), "2".to_string());
    assert!(h.contains("a".to_string()));
    assert_eq!(h.len(), 1);
}

#[test]
fn clear_makes_hash_map_empty() {
    let mut h = HashMap::<String, String>::new();
    h.insert("a".to_string(), "1".to_string());
    h.insert("b".to_string(), "2".to_string());
    h.insert("c".to_string(), "3".to_string());

    h.clear();

    assert_eq!(h.len(), 0);
    assert!(h.is_empty());
    assert!(!h.contains("a".to_string()));
    assert!(!h.contains("b".to_string()));
    assert!(!h.contains("c".to_string()));
}

#[test]
fn clear_on_empty_hash_map_keeps_it_empty() {
    let mut h = HashMap::<String, String>::new();
    h.clear();
    assert_eq!(h.len(), 0);
    assert!(h.is_empty());
}

#[test]
fn can_insert_after_clear() {
    let mut h = HashMap::<String, String>::new();
    h.insert("a".to_string(), "1".to_string());
    h.clear();

    h.insert("x".to_string(), "9".to_string());

    assert_eq!(h.len(), 1);
    assert!(h.contains("x".to_string()));
    assert_eq!(h.get("x".to_string()), Some(&"9".to_string()));
}

#[test]
fn u64_keys_survive_growth() {
    let mut h = HashMap::<u64, u64>::new();
    for i in 0..200u64 {
        h.insert(i, i * 10);
    }
    assert_eq!(h.len(), 200);
    for i in 0..200u64 {
        assert_eq!(h.get(i), Some(&(i * 10)));
    }
    assert!(h.get(200).is_none());
}

#[test]
fn i32_negative_keys_roundtrip() {
    let mut h = HashMap::<i32, String>::new();
    h.insert(-5, "neg".to_string());
    h.insert(0, "zero".to_string());
    h.insert(i32::MIN, "min".to_string());
    h.insert(i32::MAX, "max".to_string());

    assert_eq!(h.len(), 4);
    assert_eq!(h.get(-5), Some(&"neg".to_string()));
    assert_eq!(h.get(0), Some(&"zero".to_string()));
    assert_eq!(h.get(i32::MIN), Some(&"min".to_string()));
    assert_eq!(h.get(i32::MAX), Some(&"max".to_string()));
    assert_eq!(h.remove(-5), Some("neg".to_string()));
    assert!(h.get(-5).is_none());
}

#[test]
fn default_hash_map_is_empty() {
    let h: HashMap<String, u64> = Default::default();
    assert_eq!(h.len(), 0);
    assert!(h.is_empty());
}

#[test]
fn clear_keeps_grown_table_usable() {
    let mut h = HashMap::<u64, u64>::new();
    for i in 0..100u64 {
        h.insert(i, i);
    }
    h.clear();
    assert_eq!(h.len(), 0);
    for i in 0..100u64 {
        assert!(h.get(i).is_none());
    }
    h.insert(7, 70);
    assert_eq!(h.get(7), Some(&70));
    assert_eq!(h.len(), 1);
}
