use init_supervisor::maps::StrMap;

#[test]
fn empty_table_has_no_bindings() {
    let m: StrMap<u32> = StrMap::new();
    assert_eq!(m.get("anything"), None);
    assert!(!m.contains_key("anything"));
}

#[test]
fn insert_then_get() {
    let mut m: StrMap<u32> = StrMap::new();
    m.insert("a".to_string(), 1);
    m.insert("b".to_string(), 2);
    assert_eq!(m.get("a"), Some(&1));
    assert_eq!(m.get("b"), Some(&2));
    assert_eq!(m.get("c"), None);
    assert!(m.contains_key("a"));
}

#[test]
fn last_writer_wins() {
    let mut m: StrMap<&str> = StrMap::new();
    m.insert("key".to_string(), "first");
    m.insert("key".to_string(), "second");
    assert_eq!(m.get("key"), Some(&"second"));
}

#[test]
fn entries_roundtrip_keeps_bindings() {
    let mut m: StrMap<u32> = StrMap::new();
    m.insert("x".to_string(), 10);
    m.insert("y".to_string(), 20);
    m.insert("x".to_string(), 30);
    let rebuilt = StrMap::from_entries(m.into_entries());
    assert_eq!(rebuilt.get("x"), Some(&30));
    assert_eq!(rebuilt.get("y"), Some(&20));
}

#[test]
fn reserve_keeps_bindings() {
    let mut m: StrMap<u32> = StrMap::new();
    m.insert("k".to_string(), 5);
    m.reserve(64);
    assert_eq!(m.get("k"), Some(&5));
}
