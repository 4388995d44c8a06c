use washi::ident::{candidate_name, is_preserved_ident, Identifier};

#[test]
fn candidate_names_count_in_letters() {
    assert_eq!(candidate_name(0), "a");
    assert_eq!(candidate_name(25), "z");
    assert_eq!(candidate_name(26), "A");
    assert_eq!(candidate_name(51), "Z");
    assert_eq!(candidate_name(52), "aa");
    assert_eq!(candidate_name(53), "ab");
    assert_eq!(candidate_name(52 + 52), "ba");
    assert_eq!(candidate_name(52 + 52 * 52), "aaa");
}

#[test]
fn next_skips_reserved_names() {
    let mut id = Identifier::default();
    let names: Vec<String> = (0..8).map(|_| id.next()).collect();
    // a, b, g, r are swizzle letters
    assert_eq!(names, vec!["c", "d", "e", "f", "h", "i", "j", "k"]);
}

#[test]
fn next_skips_swizzle_only_pairs() {
    let mut id = Identifier::default();
    let mut names = Vec::new();
    for _ in 0..200 {
        names.push(id.next());
    }
    assert!(!names.contains(&"xy".to_string()));
    assert!(!names.contains(&"rg".to_string()));
    assert!(names.contains(&"ac".to_string()));
    // every name is given once
    let mut sorted = names.clone();
    sorted.sort();
    sorted.dedup();
    assert_eq!(sorted.len(), names.len());
}

#[test]
fn try_next_gives_the_same_names() {
    let mut a = Identifier::default();
    let mut b = Identifier::default();
    for _ in 0..60 {
        assert_eq!(a.try_next(), Some(b.next()));
    }
}

#[test]
fn next_ident_wraps_the_next_name() {
    let mut id = Identifier::default();
    assert_eq!(id.next_ident().to_string(), "c");
    assert_eq!(id.next_ident().to_string(), "d");
}

#[test]
fn reserved_names() {
    assert!(Identifier::is_reserved("x"));
    assert!(Identifier::is_reserved("rgba"));
    assert!(Identifier::is_reserved("xyzw"));
    assert!(Identifier::is_reserved("f32"));
    assert!(Identifier::is_reserved("vec3"));
    assert!(Identifier::is_reserved("array"));
    assert!(Identifier::is_reserved("length"));
    assert!(Identifier::is_reserved("NULL"));
    assert!(Identifier::is_reserved(""));
    assert!(!Identifier::is_reserved("c"));
    assert!(!Identifier::is_reserved("foo"));
    assert!(!Identifier::is_reserved("xq"));
}

#[test]
fn underscore_names_are_preserved() {
    assert!(is_preserved_ident("_x"));
    assert!(is_preserved_ident("_"));
    assert!(!is_preserved_ident("x_"));
    assert!(!is_preserved_ident(""));
}

#[test]
fn try_next_ident_wraps_the_next_name() {
    let mut id = Identifier::default();
    assert_eq!(id.try_next_ident().map(|i| i.to_string()), Some("c".to_string()));
    assert_eq!(id.next(), "d");
}

fn rank(c: char) -> usize {
    if c.is_ascii_lowercase() { c as usize - 'a' as usize } else { c as usize - 'A' as usize + 26 }
}

#[test]
fn names_come_in_shortlex_order() {
    let mut id = Identifier::default();
    let names: Vec<String> = (0..3000).map(|_| id.next()).collect();
    for pair in names.windows(2) {
        let (a, b) = (&pair[0], &pair[1]);
        let ka: Vec<usize> = a.chars().map(rank).collect();
        let kb: Vec<usize> = b.chars().map(rank).collect();
        assert!(ka.len() < kb.len() || (ka.len() == kb.len() && ka < kb), "{a} before {b}");
    }
}

#[test]
fn next_ident_names_what_next_would() {
    let mut a = Identifier::default();
    let mut b = Identifier::default();
    for _ in 0..100 {
        let ident = a.next_ident();
        let name = b.next();
        assert_eq!(ident.to_string(), name);
    }
    assert_eq!(a.next(), b.next());
}
