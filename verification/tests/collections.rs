use html_parser::dom::vecmap::VecMap;
use html_parser::dom::vecset::VecSet;
use html_parser::Attribute;
use std::borrow::Cow;

fn key(s: &'static str) -> Cow<'static, str> {
    Cow::Borrowed(s)
}

#[test]
fn vecmap_insert_then_get() {
    let mut m: VecMap<Cow<'static, str>, u32> = VecMap(Vec::new());
    assert!(m.is_empty());
    assert_eq!(m.insert(key("a"), 1), None);
    assert_eq!(m.insert(key("b"), 2), None);
    assert_eq!(m.get("a"), Some(&1));
    assert_eq!(m.get("b"), Some(&2));
    assert_eq!(m.get("c"), None);
    assert!(m.contains_key("a"));
    assert!(!m.contains_key("c"));
    assert!(!m.is_empty());
}

#[test]
fn vecmap_insert_existing_keeps_place_and_returns_old() {
    let mut m: VecMap<Cow<'static, str>, u32> = VecMap(Vec::new());
    m.insert(key("a"), 1);
    m.insert(key("b"), 2);
    assert_eq!(m.insert(key("a"), 3), Some(1));
    assert_eq!(m.0.len(), 2);
    assert_eq!(m.0[0].0.as_ref(), "a");
    assert_eq!(m.0[0].1, 3);
    assert_eq!(m.get("a"), Some(&3));
}

#[test]
fn vecmap_remove() {
    let mut m: VecMap<Cow<'static, str>, u32> = VecMap(Vec::new());
    m.insert(key("a"), 1);
    m.insert(key("b"), 2);
    m.insert(key("c"), 3);
    assert_eq!(m.remove("b"), Some(2));
    assert_eq!(m.remove("b"), None);
    assert!(!m.contains_key("b"));
    assert_eq!(m.get("c"), Some(&3));
    assert_eq!(m.0.len(), 2);
    assert_eq!(m.0[1].0.as_ref(), "c");
}

#[test]
fn vecmap_iter_in_insertion_order() {
    let mut m: VecMap<Cow<'static, str>, u32> = VecMap(Vec::new());
    m.insert(key("z"), 1);
    m.insert(key("y"), 2);
    m.insert(key("z"), 5);
    let mut it = m.iter();
    let (k, v) = it.next().unwrap();
    assert_eq!((k.as_ref(), *v), ("z", 5));
    let (k, v) = it.next().unwrap();
    assert_eq!((k.as_ref(), *v), ("y", 2));
    assert!(it.next().is_none());
    assert!(it.next().is_none());
}

#[test]
fn vecset_insert_contains_remove() {
    let mut s: VecSet<Attribute<'static>> = VecSet(VecMap(Vec::new()));
    assert!(s.is_empty());
    assert!(s.insert("a".into()));
    assert!(s.insert("b".into()));
    assert!(!s.insert("a".into()));
    assert!(s.contains_key("a"));
    assert!(s.contains_key("b"));
    assert!(!s.contains_key("c"));
    assert!(s.remove("a"));
    assert!(!s.remove("a"));
    assert!(!s.contains_key("a"));
    let mut it = s.iter();
    assert_eq!(it.next().unwrap().as_str(), "b");
    assert!(it.next().is_none());
}

#[test]
fn removing_a_fresh_insert_restores_the_map() {
    let mut m: VecMap<Cow<'static, str>, u32> = VecMap(vec![(Cow::Borrowed("a"), 1), (Cow::Borrowed("b"), 2)]);
    let before = m.clone();
    assert_eq!(m.insert(Cow::Borrowed("c"), 3), None);
    assert_eq!(m.remove("c"), Some(3));
    assert_eq!(m, before);
}

#[test]
fn iterators_hand_out_entries_in_order() {
    let mut m: VecMap<Cow<'static, str>, u32> = VecMap(Vec::new());
    m.insert(key("x"), 1);
    m.insert(key("y"), 2);
    m.insert(key("x"), 3);
    let pairs: Vec<(String, u32)> = m.iter().map(|(k, v)| (k.to_string(), *v)).collect();
    assert_eq!(pairs, vec![(String::from("x"), 3), (String::from("y"), 2)]);
    let owned: Vec<u32> = m.into_iter().map(|(_, v)| v).collect();
    assert_eq!(owned, vec![3, 2]);
    let mut s: VecSet<Attribute<'static>> = VecSet(VecMap(Vec::new()));
    s.insert(Attribute::from("b"));
    s.insert(Attribute::from("a"));
    s.insert(Attribute::from("b"));
    let names: Vec<&str> = s.iter().map(|a| a.as_str()).collect();
    assert_eq!(names, vec!["b", "a"]);
    let owned: Vec<String> = s.into_iter().map(|a| a.as_str().to_string()).collect();
    assert_eq!(owned, vec![String::from("b"), String::from("a")]);
}

#[test]
fn vecset_remove_keeps_the_others_in_order() {
    let mut s: VecSet<Attribute<'static>> = VecSet(VecMap(Vec::new()));
    for w in ["a", "b", "c", "d"] {
        assert!(s.insert(Attribute::from(w)));
    }
    assert!(!s.insert(Attribute::from(String::from("b"))));
    assert!(matches!(s.0 .0[1].0 .0, Cow::Borrowed("b")));
    assert!(s.remove("b"));
    assert!(!s.remove("b"));
    let names: Vec<&str> = s.iter().map(|a| a.as_str()).collect();
    assert_eq!(names, vec!["a", "c", "d"]);
}
