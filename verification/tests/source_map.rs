use corelink_core::source_map::SourceMap;
use std::collections::BTreeMap;

#[test]
fn keys_are_held_in_order_and_once() {
    let keys = ["b", "a", "", "ab", "é", "z", "aa", "\u{10ffff}", "\u{e000}", "a", "B", "10", "9"];
    let mut ours: SourceMap<usize> = SourceMap::new();
    let mut std: BTreeMap<String, usize> = BTreeMap::new();
    for (i, k) in keys.iter().enumerate() {
        ours.insert(k.to_string(), i);
        std.insert(k.to_string(), i);
    }
    assert_eq!(ours.len(), std.len());
    for (i, (k, v)) in std.iter().enumerate() {
        assert_eq!(ours.key_at(i), k);
        assert_eq!(ours.value_at(i), v);
        assert_eq!(ours.get(k), Some(v));
        assert_eq!(ours.find(k), Some(i));
    }
}

#[test]
fn a_removed_key_is_gone_and_the_others_stay() {
    let mut m: SourceMap<u8> = SourceMap::default();
    assert!(m.is_empty());
    m.insert("x".to_string(), 1);
    m.insert("y".to_string(), 2);
    m.remove(&"x".to_string());
    m.remove(&"never".to_string());
    assert!(!m.contains_key(&"x".to_string()));
    assert_eq!(m.get(&"y".to_string()), Some(&2));
    m.set_value_at(0, 3);
    assert_eq!(m.get(&"y".to_string()), Some(&3));
    assert_eq!(m.get(&"x".to_string()), None);
    assert_eq!(m.len(), 1);
}
