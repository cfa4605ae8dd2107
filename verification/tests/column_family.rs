use sakuhiki::column_family::ColumnFamily;
use sakuhiki::range::{prefix_range, Bound, KeyRange};

fn sample() -> ColumnFamily {
    let mut cf = ColumnFamily::new();
    for (k, v) in [(&b"b"[..], &b"2"[..]), (b"a", b"1"), (b"c", b"3"), (b"ab", b"12")] {
        assert_eq!(cf.insert(k, v), None);
    }
    cf
}

#[test]
fn a_new_column_family_is_empty() {
    let cf = ColumnFamily::new();
    assert_eq!(cf.len(), 0);
    assert_eq!(cf.get(b"a"), None);
    assert!(cf.range(&KeyRange::all()).is_empty());
}

#[test]
fn insert_returns_the_previous_value() {
    let mut cf = sample();
    assert_eq!(cf.len(), 4);
    assert_eq!(cf.insert(b"a", b"one"), Some(b"1".to_vec()));
    assert_eq!(cf.len(), 4);
    assert_eq!(cf.get(b"a"), Some(b"one".to_vec()));
    assert_eq!(cf.get(b"ab"), Some(b"12".to_vec()));
    assert_eq!(cf.get(b"abc"), None);
}

#[test]
fn remove_returns_the_previous_value() {
    let mut cf = sample();
    assert_eq!(cf.remove(b"b"), Some(b"2".to_vec()));
    assert_eq!(cf.remove(b"b"), None);
    assert_eq!(cf.len(), 3);
    assert_eq!(cf.get(b"b"), None);
    assert_eq!(cf.get(b"c"), Some(b"3".to_vec()));
}

#[test]
fn clear_removes_everything() {
    let mut cf = sample();
    cf.clear();
    assert_eq!(cf.len(), 0);
    assert_eq!(cf.get(b"a"), None);
}

#[test]
fn range_walks_in_key_order() {
    let cf = sample();
    let all = cf.range(&KeyRange::all());
    let keys: Vec<&[u8]> = all.iter().map(|p| p.0.as_slice()).collect();
    assert_eq!(keys, vec![&b"a"[..], b"ab", b"b", b"c"]);
    for pair in all.windows(2) {
        assert!(pair[0].0 < pair[1].0);
    }
}

#[test]
fn range_keeps_to_its_ends() {
    let cf = sample();
    let some = cf.range(&KeyRange::new(Bound::Excluded(b"a".to_vec()), Bound::Included(b"b".to_vec())));
    assert_eq!(some, vec![(b"ab".to_vec(), b"12".to_vec()), (b"b".to_vec(), b"2".to_vec())]);
    let with_prefix = cf.range(&prefix_range(b"a"));
    assert_eq!(with_prefix, vec![(b"a".to_vec(), b"1".to_vec()), (b"ab".to_vec(), b"12".to_vec())]);
    assert!(cf.range(&prefix_range(b"z")).is_empty());
}

#[test]
fn duplicate_is_a_copy_of_its_own() {
    let cf = sample();
    let mut copy = cf.duplicate();
    assert!(copy.same_as(&cf));
    copy.insert(b"d", b"4");
    assert!(!copy.same_as(&cf));
    assert_eq!(cf.get(b"d"), None);
    copy.remove(b"d");
    assert!(copy.same_as(&cf));
}

#[test]
fn same_as_compares_values_too() {
    let cf = sample();
    let mut other = sample();
    assert!(cf.same_as(&other));
    other.insert(b"a", b"x");
    assert!(!cf.same_as(&other));
}
