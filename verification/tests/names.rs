use sakuhiki::names::{find_name, is_reserved, same_name, NameMap, SAKUHIKI_PREFIX};

#[test]
fn reserved_names_start_with_the_prefix() {
    assert_eq!(SAKUHIKI_PREFIX, "__sakuhiki");
    assert!(is_reserved("__sakuhiki"));
    assert!(is_reserved("__sakuhiki_foo"));
    assert!(is_reserved("__sakuhikifoo"));
    assert!(!is_reserved("_sakuhiki"));
    assert!(!is_reserved("__sakuhik"));
    assert!(!is_reserved("d"));
    assert!(!is_reserved(""));
    assert!(!is_reserved("x__sakuhiki"));
}

#[test]
fn names_are_compared_by_their_bytes() {
    assert!(same_name("datum", "datum"));
    assert!(!same_name("datum", "datum-foo"));
    assert!(!same_name("Datum", "datum"));
    assert_eq!(find_name(&["a", "b", "c"], "b"), Some(1));
    assert_eq!(find_name(&["a", "b", "c"], "d"), None);
    assert_eq!(find_name(&[], "d"), None);
}

#[test]
fn a_name_is_kept_once() {
    let mut map: NameMap<u32> = NameMap::new();
    assert_eq!(map.insert("a", 1), Ok(()));
    assert_eq!(map.insert("b", 2), Ok(()));
    assert_eq!(map.insert("a", 3), Err(3));
    assert_eq!(map.len(), 2);
    assert_eq!(map.find("a"), Some(0));
    assert_eq!(map.find("b"), Some(1));
    assert_eq!(map.find("c"), None);
    assert_eq!(map.name_at(1), "b");
    assert_eq!(*map.value_at(0), 1);
}

#[test]
fn swap_value_exchanges() {
    let mut map: NameMap<u32> = NameMap::new();
    map.insert("a", 1).unwrap();
    map.insert("b", 2).unwrap();
    let mut value = 7;
    map.swap_value(1, &mut value);
    assert_eq!(value, 2);
    assert_eq!(*map.value_at(1), 7);
    assert_eq!(*map.value_at(0), 1);
}

#[test]
fn retain_names_keeps_the_order() {
    let mut map: NameMap<u32> = NameMap::new();
    for (name, value) in [("a", 1), ("b", 2), ("c", 3), ("d", 4)] {
        map.insert(name, value).unwrap();
    }
    let kept = map.retain_names(&["d", "b", "x"]);
    let (names, values) = kept.into_parts();
    assert_eq!(names, vec!["b", "d"]);
    assert_eq!(values, vec![2, 4]);
}
