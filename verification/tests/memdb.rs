use sakuhiki::backend::{Backend, BackendCf, Transaction};
use sakuhiki::errors::Error;
use sakuhiki::memdb::MemDb;
use sakuhiki::mode::Mode;
use sakuhiki::range::{prefix_range, successor, Bound, KeyRange};

fn engine() -> MemDb {
    let mut engine = MemDb::new();
    assert!(engine.create_cf("a"));
    assert!(engine.create_cf("b"));
    engine
}

fn filled() -> MemDb {
    let mut engine = engine();
    let a = engine.cf_handle("a").unwrap();
    let (mut t, cfs) = engine.transaction(Mode::ReadWrite, &[&a]).unwrap();
    for key in [&[1u8, 0xFF][..], &[1, 0xFF, 0], &[1, 0xFE], &[2], &[2, 0], &[1], &[0xFF, 0xFF, 1]] {
        t.put(&cfs[0], key, b"v").unwrap();
    }
    engine.commit(t).unwrap();
    engine
}

#[test]
fn create_cf_happens_once() {
    let mut engine = MemDb::new();
    assert!(!engine.has_cf("a"));
    assert!(engine.create_cf("a"));
    assert!(!engine.create_cf("a"));
    assert!(engine.has_cf("a"));
}

#[test]
fn cf_handle_fails_where_there_is_no_such_cf() {
    let engine = engine();
    assert_eq!(engine.cf_handle("a").unwrap().name(), "a");
    assert_eq!(engine.cf_handle("zzz").err(), Some(Error::NoSuchCf("zzz")));
}

#[test]
fn handles_come_in_the_order_asked_for() {
    let engine = engine();
    let a = engine.cf_handle("a").unwrap();
    let b = engine.cf_handle("b").unwrap();
    let (t, cfs) = engine.transaction(Mode::ReadOnly, &[&b, &a, &b]).unwrap();
    assert_eq!(t.current_mode(), Mode::ReadOnly);
    let names: Vec<&str> = cfs.iter().map(|cf| cf.name()).collect();
    assert_eq!(names, vec!["b", "a", "b"]);
}

#[test]
fn writes_are_read_back_within_the_transaction() {
    let engine = engine();
    let a = engine.cf_handle("a").unwrap();
    let (mut t, cfs) = engine.transaction(Mode::ReadWrite, &[&a]).unwrap();
    assert_eq!(t.put(&cfs[0], b"k", b"v1").unwrap(), None);
    assert_eq!(t.put(&cfs[0], b"k", b"v2").unwrap(), Some(b"v1".to_vec()));
    assert_eq!(t.get(&cfs[0], b"k").unwrap(), Some(b"v2".to_vec()));
    assert_eq!(t.delete(&cfs[0], b"k").unwrap(), Some(b"v2".to_vec()));
    assert_eq!(t.delete(&cfs[0], b"k").unwrap(), None);
    assert_eq!(t.get(&cfs[0], b"k").unwrap(), None);
    t.put(&cfs[0], b"k", b"v3").unwrap();
    t.clear(&cfs[0]).unwrap();
    assert_eq!(t.get(&cfs[0], b"k").unwrap(), None);
}

#[test]
fn a_read_only_transaction_cannot_write() {
    let engine = filled();
    let a = engine.cf_handle("a").unwrap();
    let (mut t, cfs) = engine.transaction(Mode::ReadOnly, &[&a]).unwrap();
    let refused = Error::InvalidTransactionMode { expected: Mode::ReadWrite, actual: Mode::ReadOnly };
    assert_eq!(t.put(&cfs[0], b"k", b"v").err(), Some(refused));
    let refused = Error::InvalidTransactionMode { expected: Mode::ReadWrite, actual: Mode::ReadOnly };
    assert_eq!(t.delete(&cfs[0], &[2]).err(), Some(refused));
    let refused = Error::InvalidTransactionMode { expected: Mode::ReadWrite, actual: Mode::ReadOnly };
    assert_eq!(t.clear(&cfs[0]).err(), Some(refused));
    assert_eq!(t.get(&cfs[0], &[2]).unwrap(), Some(b"v".to_vec()));
}

#[test]
fn only_a_rebuilding_transaction_takes_the_exclusive_lock() {
    let engine = engine();
    let a = engine.cf_handle("a").unwrap();
    for mode in [Mode::ReadOnly, Mode::ReadWrite] {
        let (mut t, cfs) = engine.transaction(mode, &[&a]).unwrap();
        assert_eq!(
            t.take_exclusive_lock(&cfs[0]).err(),
            Some(Error::InvalidTransactionMode { expected: Mode::IndexRebuilding, actual: mode })
        );
    }
    let (mut t, cfs) = engine.transaction(Mode::IndexRebuilding, &[&a]).unwrap();
    assert_eq!(t.take_exclusive_lock(&cfs[0]), Ok(()));
    assert_eq!(t.put(&cfs[0], b"k", b"v").unwrap(), None);
}

#[test]
fn a_transaction_over_a_missing_cf_fails() {
    let mut other = MemDb::new();
    other.create_cf("elsewhere");
    let stray = other.cf_handle("elsewhere").unwrap();
    let engine = engine();
    let failure = engine.transaction(Mode::ReadOnly, &[&stray]).err().unwrap();
    assert_eq!(failure.cf(), Some("elsewhere"));
    assert_eq!(failure.message(), "Column family does not exist: \u{2018}elsewhere\u{2019}");
    assert!(matches!(failure, Error::Cf { source, .. } if *source == Error::NoSuchCf("elsewhere")));
}

#[test]
fn scan_delivers_keys_in_strict_order() {
    let engine = filled();
    let a = engine.cf_handle("a").unwrap();
    let (t, cfs) = engine.transaction(Mode::ReadOnly, &[&a]).unwrap();
    let all = t.scan(&cfs[0], &KeyRange::all()).unwrap();
    assert_eq!(all.len(), 7);
    for pair in all.windows(2) {
        assert!(pair[0].0 < pair[1].0);
    }
    let some = t
        .scan(&cfs[0], &KeyRange::new(Bound::Included(vec![1, 0xFF]), Bound::Excluded(vec![2, 0])))
        .unwrap();
    let keys: Vec<Vec<u8>> = some.into_iter().map(|p| p.0).collect();
    assert_eq!(keys, vec![vec![1, 0xFF], vec![1, 0xFF, 0], vec![2]]);
}

#[test]
fn scan_prefix_is_the_scan_up_to_the_successor() {
    let engine = filled();
    let a = engine.cf_handle("a").unwrap();
    let (t, cfs) = engine.transaction(Mode::ReadOnly, &[&a]).unwrap();
    for prefix in [&[][..], &[1], &[1, 0xFF], &[2], &[0xFF], &[0xFF, 0xFF], &[3]] {
        let by_prefix = t.scan_prefix(&cfs[0], prefix).unwrap();
        let end = match successor(prefix) {
            Some(next) => Bound::Excluded(next),
            None => Bound::Unbounded,
        };
        let by_range = t.scan(&cfs[0], &KeyRange::new(Bound::Included(prefix.to_vec()), end)).unwrap();
        assert_eq!(by_prefix, by_range);
        assert_eq!(by_prefix, t.scan(&cfs[0], &prefix_range(prefix)).unwrap());
    }
    let ones: Vec<Vec<u8>> =
        t.scan_prefix(&cfs[0], &[1]).unwrap().into_iter().map(|p| p.0).collect();
    assert_eq!(ones, vec![vec![1], vec![1, 0xFE], vec![1, 0xFF], vec![1, 0xFF, 0]]);
    let full: Vec<Vec<u8>> =
        t.scan_prefix(&cfs[0], &[0xFF, 0xFF]).unwrap().into_iter().map(|p| p.0).collect();
    assert_eq!(full, vec![vec![0xFF, 0xFF, 1]]);
}

#[test]
fn nothing_is_written_without_a_commit() {
    let mut engine = filled();
    let a = engine.cf_handle("a").unwrap();
    {
        let (mut t, cfs) = engine.transaction(Mode::ReadWrite, &[&a]).unwrap();
        t.put(&cfs[0], b"new", b"v").unwrap();
        t.clear(&cfs[0]).unwrap();
        t.put(&cfs[0], b"other", b"v").unwrap();
    }
    let (t, cfs) = engine.transaction(Mode::ReadOnly, &[&a]).unwrap();
    assert_eq!(t.scan(&cfs[0], &KeyRange::all()).unwrap().len(), 7);
    assert_eq!(t.get(&cfs[0], b"new").unwrap(), None);
    engine.commit(t).unwrap();
}

#[test]
fn commit_replaces_the_column_families_in_scope() {
    let mut engine = filled();
    let a = engine.cf_handle("a").unwrap();
    let b = engine.cf_handle("b").unwrap();
    let (mut t, cfs) = engine.transaction(Mode::ReadWrite, &[&a, &b]).unwrap();
    t.clear(&cfs[0]).unwrap();
    t.put(&cfs[1], b"k", b"v").unwrap();
    engine.commit(t).unwrap();
    let (t, cfs) = engine.transaction(Mode::ReadOnly, &[&a, &b]).unwrap();
    assert!(t.scan(&cfs[0], &KeyRange::all()).unwrap().is_empty());
    assert_eq!(t.get(&cfs[1], b"k").unwrap(), Some(b"v".to_vec()));
}

#[test]
fn a_stale_transaction_does_not_commit() {
    let mut engine = engine();
    let a = engine.cf_handle("a").unwrap();
    let b = engine.cf_handle("b").unwrap();
    let (mut first, first_cfs) = engine.transaction(Mode::ReadWrite, &[&a]).unwrap();
    let (mut second, second_cfs) = engine.transaction(Mode::ReadWrite, &[&a, &b]).unwrap();
    first.put(&first_cfs[0], b"k", b"first").unwrap();
    second.put(&second_cfs[0], b"k", b"second").unwrap();
    second.put(&second_cfs[1], b"k", b"second").unwrap();
    assert_eq!(engine.commit(first), Ok(()));
    assert_eq!(engine.commit(second), Err(Error::Conflict("a")));
    let (t, cfs) = engine.transaction(Mode::ReadOnly, &[&a, &b]).unwrap();
    assert_eq!(t.get(&cfs[0], b"k").unwrap(), Some(b"first".to_vec()));
    assert_eq!(t.get(&cfs[1], b"k").unwrap(), None);
}

#[test]
fn transactions_over_different_column_families_both_commit() {
    let mut engine = engine();
    let a = engine.cf_handle("a").unwrap();
    let b = engine.cf_handle("b").unwrap();
    let (mut first, first_cfs) = engine.transaction(Mode::ReadWrite, &[&a]).unwrap();
    let (mut second, second_cfs) = engine.transaction(Mode::ReadWrite, &[&b]).unwrap();
    first.put(&first_cfs[0], b"k", b"first").unwrap();
    second.put(&second_cfs[0], b"k", b"second").unwrap();
    assert_eq!(engine.commit(second), Ok(()));
    assert_eq!(engine.commit(first), Ok(()));
}

#[test]
fn a_read_only_transaction_always_commits() {
    let mut engine = engine();
    let a = engine.cf_handle("a").unwrap();
    let (reader, _) = engine.transaction(Mode::ReadOnly, &[&a]).unwrap();
    let (mut writer, cfs) = engine.transaction(Mode::ReadWrite, &[&a]).unwrap();
    writer.put(&cfs[0], b"k", b"v").unwrap();
    assert_eq!(engine.commit(writer), Ok(()));
    assert_eq!(engine.commit(reader), Ok(()));
    let (t, cfs) = engine.transaction(Mode::ReadOnly, &[&a]).unwrap();
    assert_eq!(t.get(&cfs[0], b"k").unwrap(), Some(b"v".to_vec()));
}

#[test]
fn a_handle_out_of_scope_is_refused() {
    let engine = engine();
    let a = engine.cf_handle("a").unwrap();
    let b = engine.cf_handle("b").unwrap();
    let (_, b_cfs) = engine.transaction(Mode::ReadOnly, &[&b]).unwrap();
    let (mut t, _) = engine.transaction(Mode::ReadWrite, &[&a]).unwrap();
    assert_eq!(t.get(&b_cfs[0], b"k").err(), Some(Error::NoSuchCf("b")));
    assert_eq!(t.put(&b_cfs[0], b"k", b"v").err(), Some(Error::NoSuchCf("b")));
}
