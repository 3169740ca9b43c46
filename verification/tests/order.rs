use std::collections::HashMap;

use content_renamer::order::{is_before, walked_keys, TextSet};

#[test]
fn orders_texts() {
    assert!(is_before("a", "b"));
    assert!(is_before("a", "ab"));
    assert!(is_before("Z", "a"));
    assert!(is_before("", "a"));
    assert!(is_before("あ", "亜"));
    assert!(!is_before("a", "a"));
    assert!(!is_before("b", "a"));
}

#[test]
fn sets_hold_texts_once() {
    let mut set = TextSet::new();
    assert!(set.insert("b".to_string()));
    assert!(set.insert("a".to_string()));
    assert!(!set.insert("b".to_string()));
    assert_eq!(set.to_list(), vec!["a".to_string(), "b".to_string()]);
    let mut other = set.clone();
    other.insert("c".to_string());
    assert_eq!(set.len(), 2);
    assert_eq!(set.overlap(&other), 2);
    set.extend(&other);
    assert_eq!(set.len(), 3);
}

#[test]
fn walks_maps() {
    let mut map = HashMap::new();
    map.insert(3u64, "c");
    map.insert(1u64, "a");
    let mut keys = walked_keys(&map);
    keys.sort();
    assert_eq!(keys, vec![1, 3]);
}
