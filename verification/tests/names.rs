use washi::names::{NameMap, NameSet};

#[test]
fn name_map_insert_and_get() {
    let mut m = NameMap::new();
    assert_eq!(m.get(&"light".to_string()), None);
    m.insert("light".to_string(), "c".to_string());
    m.insert("shade".to_string(), "d".to_string());
    assert_eq!(m.get(&"light".to_string()), Some("c".to_string()));
    assert!(m.contains_key(&"shade".to_string()));
    assert!(!m.contains_key(&"c".to_string()));
    assert!(m.has_value(&"d".to_string()));
    assert!(!m.has_value(&"light".to_string()));
    // a second insert replaces the value
    m.insert("light".to_string(), "e".to_string());
    assert_eq!(m.get(&"light".to_string()), Some("e".to_string()));
    assert!(!m.has_value(&"c".to_string()));
}

#[test]
fn name_set_insert_and_contains() {
    let mut s = NameSet::new();
    assert!(!s.contains(&"c".to_string()));
    s.insert("c".to_string());
    s.insert("c".to_string());
    assert!(s.contains(&"c".to_string()));
    assert!(!s.contains(&"d".to_string()));
}
