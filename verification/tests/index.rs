use sakuhiki::backend::{Backend, BackendCf, Transaction};
use sakuhiki::btree::fixed_len::{FixedLenKey, FixedLenKeyExtractor};
use sakuhiki::btree::index::BTreeIndex;
use sakuhiki::btree::query::BTreeQuery;
use sakuhiki::datum::{Datum as _, IndexedDatum};
use sakuhiki::db::Db;
use sakuhiki::errors::Error;
use sakuhiki::indexer::Indexer;
use sakuhiki::memdb::MemDb;
use sakuhiki::mode::Mode;
use sakuhiki::range::{Bound, KeyRange};

#[derive(Debug, Eq, PartialEq)]
struct Datum {
    foo: u32,
    bar: u32,
}

impl Datum {
    fn new(foo: u32, bar: u32) -> Self {
        Self { foo, bar }
    }

    fn to_array(&self) -> [u8; 8] {
        let mut array = [0; 8];
        array[..4].copy_from_slice(&self.foo.to_be_bytes());
        array[4..].copy_from_slice(&self.bar.to_be_bytes());
        array
    }
}

impl sakuhiki::datum::Datum for Datum {
    const CF: &'static str = "datum";

    fn from_slice(datum: &[u8]) -> Result<Self, Error> {
        if datum.len() != 8 {
            return Err(Error::Parse(format!("expected 8-long slice, got {} bytes", datum.len())));
        }
        Ok(Self {
            foo: u32::from_be_bytes(datum[..4].try_into().unwrap()),
            bar: u32::from_be_bytes(datum[4..].try_into().unwrap()),
        })
    }
}

struct Foo;

impl FixedLenKeyExtractor for Foo {
    type Datum = Datum;

    fn extract(&self, d: &Datum, key: &mut [u8]) -> bool {
        key.copy_from_slice(&d.foo.to_be_bytes());
        true
    }
}

struct Bar;

impl FixedLenKeyExtractor for Bar {
    type Datum = Datum;

    fn extract(&self, d: &Datum, key: &mut [u8]) -> bool {
        key.copy_from_slice(&d.bar.to_be_bytes());
        true
    }
}

impl Datum {
    const INDEX_FOO: &'static BTreeIndex<FixedLenKey<Foo>> =
        &BTreeIndex { cf: &["datum-foo"], key: FixedLenKey { len: 4, extractor: Foo } };
    const INDEX_BAR: &'static BTreeIndex<FixedLenKey<Bar>> =
        &BTreeIndex { cf: &["datum-bar"], key: FixedLenKey { len: 4, extractor: Bar } };
}

impl IndexedDatum<MemDb> for Datum {
    const INDEXES: &'static [&'static dyn Indexer<MemDb>] = &[Self::INDEX_FOO, Self::INDEX_BAR];
}

fn open() -> Db<MemDb> {
    MemDb::builder().datum::<Datum>().build().unwrap()
}

/// Everything that the column family `name` of `db` holds, in key order.
fn contents(db: &Db<MemDb>, name: &'static str) -> Vec<(Vec<u8>, Vec<u8>)> {
    let engine = db.as_backend();
    let cf = engine.cf_handle(name).unwrap();
    let (t, cfs) = engine.transaction(Mode::ReadOnly, &[&cf]).unwrap();
    t.scan(&cfs[0], &KeyRange::all()).unwrap()
}

fn put_both(db: &mut Db<MemDb>) {
    let datum = db.cf_handle::<Datum>().unwrap();
    let (mut t, cfs) = db.begin(Mode::ReadWrite, &[&datum]).unwrap();
    t.put::<Datum>(&cfs[0], b"12", &Datum::new(1, 2).to_array()).unwrap();
    t.put::<Datum>(&cfs[0], b"21", &Datum::new(2, 1).to_array()).unwrap();
    db.commit(t).unwrap();
}

#[test]
fn test_index() {
    let mut db = MemDb::builder().datum::<Datum>().build().unwrap();
    let datum = db.cf_handle::<Datum>().unwrap();
    db.transaction(Mode::ReadWrite, &[&datum], |mut t, cfs| {
        let d12 = Datum::new(1, 2);
        let d21 = Datum::new(2, 1);
        t.put::<Datum>(&cfs[0], b"12", &d12.to_array()).unwrap();
        t.put::<Datum>(&cfs[0], b"21", &d21.to_array()).unwrap();
        assert_eq!(Datum::from_slice(&t.get(&cfs[0], b"12").unwrap().unwrap()).unwrap(), d12);
        assert_eq!(Datum::from_slice(&t.get(&cfs[0], b"21").unwrap().unwrap()).unwrap(), d21);
        (t, Ok(()))
    })
    .unwrap();
}

#[test]
fn a_transaction_commits_what_its_actions_wrote() {
    let mut db = open();
    let datum = db.cf_handle::<Datum>().unwrap();
    let previous = db
        .rw_transaction(&[&datum], |mut t, cfs| {
            let outcome = t.put::<Datum>(&cfs[0], b"12", &Datum::new(1, 2).to_array());
            (t, outcome)
        })
        .unwrap();
    assert_eq!(previous, None);
    assert_eq!(contents(&db, "datum-foo"), vec![(b"\x00\x00\x00\x0112".to_vec(), vec![])]);
    let read = db
        .ro_transaction(&[&datum], |t, cfs| {
            let outcome = t.get(&cfs[0], b"12");
            (t, outcome)
        })
        .unwrap();
    assert_eq!(read, Some(vec![0, 0, 0, 1, 0, 0, 0, 2]));
}

#[test]
fn a_transaction_drops_what_its_actions_wrote_before_failing() {
    let mut db = open();
    put_both(&mut db);
    let datum = db.cf_handle::<Datum>().unwrap();
    let before = (contents(&db, "datum"), contents(&db, "datum-foo"), contents(&db, "datum-bar"));
    let failure = db
        .transaction(Mode::ReadWrite, &[&datum], |mut t, cfs| {
            t.put::<Datum>(&cfs[0], b"33", &Datum::new(3, 3).to_array()).unwrap();
            t.delete::<Datum>(&cfs[0], b"12").unwrap();
            let outcome = t.put::<Datum>(&cfs[0], b"44", b"not a datum");
            (t, outcome)
        })
        .err()
        .unwrap();
    assert_eq!(failure.message(), "Failed indexing new value");
    let after = (contents(&db, "datum"), contents(&db, "datum-foo"), contents(&db, "datum-bar"));
    assert_eq!(before, after);
    let refused = db
        .ro_transaction(&[&datum], |mut t, cfs| {
            let outcome = t.put::<Datum>(&cfs[0], b"55", &Datum::new(5, 5).to_array());
            (t, outcome)
        })
        .err()
        .unwrap();
    assert!(refused.is_invalid_mode());
    assert_eq!(before.0, contents(&db, "datum"));
}

#[test]
fn indexed_put_fills_both_indexes() {
    let mut db = open();
    put_both(&mut db);
    assert_eq!(
        contents(&db, "datum-foo"),
        vec![(b"\x00\x00\x00\x0112".to_vec(), vec![]), (b"\x00\x00\x00\x0221".to_vec(), vec![])]
    );
    assert_eq!(
        contents(&db, "datum-bar"),
        vec![(b"\x00\x00\x00\x0121".to_vec(), vec![]), (b"\x00\x00\x00\x0212".to_vec(), vec![])]
    );
}

#[test]
fn delete_removes_index_rows() {
    let mut db = open();
    put_both(&mut db);
    let datum = db.cf_handle::<Datum>().unwrap();
    let (mut t, cfs) = db.begin(Mode::ReadWrite, &[&datum]).unwrap();
    assert_eq!(t.delete::<Datum>(&cfs[0], b"12").unwrap(), Some(vec![0, 0, 0, 1, 0, 0, 0, 2]));
    db.commit(t).unwrap();
    assert_eq!(contents(&db, "datum-foo"), vec![(b"\x00\x00\x00\x0221".to_vec(), vec![])]);
    assert_eq!(contents(&db, "datum-bar"), vec![(b"\x00\x00\x00\x0121".to_vec(), vec![])]);
    assert_eq!(contents(&db, "datum"), vec![(b"21".to_vec(), vec![0, 0, 0, 2, 0, 0, 0, 1])]);
}

#[test]
fn overwrite_moves_index_rows() {
    let mut db = open();
    put_both(&mut db);
    let datum = db.cf_handle::<Datum>().unwrap();
    let (mut t, cfs) = db.begin(Mode::ReadWrite, &[&datum]).unwrap();
    let previous = t.put::<Datum>(&cfs[0], b"12", &Datum::new(7, 2).to_array()).unwrap();
    assert_eq!(previous, Some(vec![0, 0, 0, 1, 0, 0, 0, 2]));
    db.commit(t).unwrap();
    assert_eq!(
        contents(&db, "datum-foo"),
        vec![(b"\x00\x00\x00\x0221".to_vec(), vec![]), (b"\x00\x00\x00\x0712".to_vec(), vec![])]
    );
    assert_eq!(
        contents(&db, "datum-bar"),
        vec![(b"\x00\x00\x00\x0121".to_vec(), vec![]), (b"\x00\x00\x00\x0212".to_vec(), vec![])]
    );
}

#[test]
fn prefix_query_finds_the_object() {
    let mut db = open();
    put_both(&mut db);
    let datum = db.cf_handle::<Datum>().unwrap();
    let (t, cfs) = db.begin(Mode::ReadOnly, &[&datum]).unwrap();
    let found = Datum::INDEX_FOO
        .query::<MemDb>(
            &BTreeQuery::prefix(&[0, 0, 0, 2]),
            t.as_backend(),
            cfs[0].datum_cf(),
            cfs[0].index_cfs(0),
        )
        .unwrap();
    assert_eq!(found.len(), 1);
    assert_eq!(found[0].0.as_ref(), b"21");
    assert_eq!(found[0].0.index_key(), b"\x00\x00\x00\x0221");
    assert_eq!(found[0].1, vec![0, 0, 0, 2, 0, 0, 0, 1]);
}

#[test]
fn equal_and_range_queries() {
    let mut db = open();
    put_both(&mut db);
    let datum = db.cf_handle::<Datum>().unwrap();
    let (t, cfs) = db.begin(Mode::ReadOnly, &[&datum]).unwrap();
    let equal = Datum::INDEX_BAR
        .query::<MemDb>(
            &BTreeQuery::equal(&[0, 0, 0, 1]),
            t.as_backend(),
            cfs[0].datum_cf(),
            cfs[0].index_cfs(1),
        )
        .unwrap();
    assert_eq!(equal.len(), 1);
    assert_eq!(equal[0].0.as_ref(), b"21");
    let range = KeyRange::new(Bound::Included(vec![0, 0, 0, 1]), Bound::Unbounded);
    let all = Datum::INDEX_FOO
        .query::<MemDb>(
            &BTreeQuery::range(range),
            t.as_backend(),
            cfs[0].datum_cf(),
            cfs[0].index_cfs(0),
        )
        .unwrap();
    assert_eq!(all.len(), 2);
    assert_eq!(all[0].0.as_ref(), b"12");
    assert_eq!(all[1].0.as_ref(), b"21");
    let none = Datum::INDEX_FOO
        .query::<MemDb>(
            &BTreeQuery::prefix(&[9]),
            t.as_backend(),
            cfs[0].datum_cf(),
            cfs[0].index_cfs(0),
        )
        .unwrap();
    assert!(none.is_empty());
}

#[test]
fn rebuild_recovers_a_corrupted_index() {
    let mut db = open();
    put_both(&mut db);
    // Put a row into the index behind the back of the database.
    let mut engine = db.into_backend();
    let foo = engine.cf_handle("datum-foo").unwrap();
    let (mut t, cfs) = engine.transaction(Mode::ReadWrite, &[&foo]).unwrap();
    assert_eq!(cfs[0].name(), "datum-foo");
    t.put(&cfs[0], b"garbage", b"").unwrap();
    engine.commit(t).unwrap();
    let mut db = Db::new(engine);
    assert_eq!(contents(&db, "datum-foo").len(), 3);

    db.rebuild_index::<Datum, _>(Datum::INDEX_FOO).unwrap();
    let rebuilt = contents(&db, "datum-foo");
    assert_eq!(
        rebuilt,
        vec![(b"\x00\x00\x00\x0112".to_vec(), vec![]), (b"\x00\x00\x00\x0221".to_vec(), vec![])]
    );
    // Rebuilding once more changes nothing.
    db.rebuild_index::<Datum, _>(Datum::INDEX_FOO).unwrap();
    assert_eq!(contents(&db, "datum-foo"), rebuilt);
    assert_eq!(contents(&db, "datum").len(), 2);
}

#[test]
fn unparsable_value_aborts_the_put() {
    let mut db = open();
    let datum = db.cf_handle::<Datum>().unwrap();
    let (mut t, cfs) = db.begin(Mode::ReadWrite, &[&datum]).unwrap();
    let failure = t.put::<Datum>(&cfs[0], b"12", b"short").unwrap_err();
    assert_eq!(failure.message(), "Failed indexing new value");
    // The transaction is dropped without a commit: nothing was written.
    assert!(contents(&db, "datum").is_empty());
    assert!(contents(&db, "datum-foo").is_empty());
    db.rebuild_index::<Datum, _>(Datum::INDEX_FOO).unwrap();
}
