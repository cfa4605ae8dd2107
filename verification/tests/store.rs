use sakuhiki::backend::{Backend, Transaction};
use sakuhiki::btree::fixed_len::{FixedLenKey, FixedLenKeyExtractor};
use sakuhiki::btree::index::BTreeIndex;
use sakuhiki::btree::query::BTreeQuery;
use sakuhiki::datum::{Datum, IndexedDatum};
use sakuhiki::db::Db;
use sakuhiki::errors::{BuilderError, Error};
use sakuhiki::indexer::Indexer;
use sakuhiki::memdb::MemDb;
use sakuhiki::mode::Mode;
use sakuhiki::range::KeyRange;

fn two_u32(datum: &[u8]) -> Result<(u32, u32), Error> {
    if datum.len() != 8 {
        return Err(Error::Parse(format!("expected 8-long slice, got {} bytes", datum.len())));
    }
    Ok((
        u32::from_be_bytes(datum[..4].try_into().unwrap()),
        u32::from_be_bytes(datum[4..].try_into().unwrap()),
    ))
}

/// Objects without indexes.
#[derive(Debug, PartialEq, Eq)]
struct Plain {
    foo: u32,
    bar: u32,
}

impl Datum for Plain {
    const CF: &'static str = "d";

    fn from_slice(datum: &[u8]) -> Result<Self, Error> {
        two_u32(datum).map(|(foo, bar)| Plain { foo, bar })
    }
}

impl IndexedDatum<MemDb> for Plain {
    const INDEXES: &'static [&'static dyn Indexer<MemDb>] = &[];
}

/// The same objects, indexed by each of their two numbers.
#[derive(Debug, PartialEq, Eq)]
struct D {
    foo: u32,
    bar: u32,
}

impl Datum for D {
    const CF: &'static str = "d";

    fn from_slice(datum: &[u8]) -> Result<Self, Error> {
        two_u32(datum).map(|(foo, bar)| D { foo, bar })
    }
}

struct Foo;

impl FixedLenKeyExtractor for Foo {
    type Datum = D;

    fn extract(&self, d: &D, key: &mut [u8]) -> bool {
        key.copy_from_slice(&d.foo.to_be_bytes());
        true
    }
}

struct Bar;

impl FixedLenKeyExtractor for Bar {
    type Datum = D;

    fn extract(&self, d: &D, key: &mut [u8]) -> bool {
        key.copy_from_slice(&d.bar.to_be_bytes());
        true
    }
}

const INDEX_FOO: &'static BTreeIndex<FixedLenKey<Foo>> =
    &BTreeIndex { cf: &["d-foo"], key: FixedLenKey { len: 4, extractor: Foo } };
const INDEX_BAR: &'static BTreeIndex<FixedLenKey<Bar>> =
    &BTreeIndex { cf: &["d-bar"], key: FixedLenKey { len: 4, extractor: Bar } };

impl IndexedDatum<MemDb> for D {
    const INDEXES: &'static [&'static dyn Indexer<MemDb>] = &[INDEX_FOO, INDEX_BAR];
}

const D12: [u8; 8] = [0, 0, 0, 1, 0, 0, 0, 2];
const D21: [u8; 8] = [0, 0, 0, 2, 0, 0, 0, 1];

fn key(extracted: [u8; 4], object_key: &[u8]) -> Vec<u8> {
    let mut key = extracted.to_vec();
    key.extend_from_slice(object_key);
    key
}

/// A database of `D` with the two objects of the scenarios.
fn with_two_objects() -> Db<MemDb> {
    let mut db = MemDb::builder().datum::<D>().build().unwrap();
    let d = db.cf_handle::<D>().unwrap();
    db.rw_transaction(&[&d], |mut t, cfs| {
        t.put::<D>(&cfs[0], b"12", &D12).unwrap();
        let outcome = t.put::<D>(&cfs[0], b"21", &D21);
        (t, outcome)
    })
    .unwrap();
    db
}

fn contents(db: &Db<MemDb>, name: &'static str) -> Vec<(Vec<u8>, Vec<u8>)> {
    let engine = db.as_backend();
    let cf = engine.cf_handle(name).unwrap();
    let (t, cfs) = engine.transaction(Mode::ReadOnly, &[&cf]).unwrap();
    t.scan(&cfs[0], &KeyRange::all()).unwrap()
}

#[test]
fn open_put_get() {
    let mut db = MemDb::builder().datum::<Plain>().build().unwrap();
    let d = db.cf_handle::<Plain>().unwrap();
    let read = db
        .transaction(Mode::ReadWrite, &[&d], |mut t, cfs| {
            assert_eq!(t.put::<Plain>(&cfs[0], b"12", &D12), Ok(None));
            assert_eq!(t.put::<Plain>(&cfs[0], b"21", &D21), Ok(None));
            let outcome = t.get(&cfs[0], b"12");
            (t, outcome)
        })
        .unwrap();
    assert_eq!(read, Some(vec![0, 0, 0, 1, 0, 0, 0, 2]));
    assert_eq!(Plain::from_slice(&read.unwrap()), Ok(Plain { foo: 1, bar: 2 }));
    // What was committed is there for the next transaction.
    let (t, cfs) = db.begin(Mode::ReadOnly, &[&d]).unwrap();
    assert_eq!(t.get(&cfs[0], b"21").unwrap(), Some(D21.to_vec()));
    assert_eq!(t.get(&cfs[0], b"13").unwrap(), None);
}

#[test]
fn indexed_put() {
    let db = with_two_objects();
    assert_eq!(
        contents(&db, "d-foo"),
        vec![(key([0, 0, 0, 1], b"12"), vec![]), (key([0, 0, 0, 2], b"21"), vec![])]
    );
    assert_eq!(
        contents(&db, "d-bar"),
        vec![(key([0, 0, 0, 1], b"21"), vec![]), (key([0, 0, 0, 2], b"12"), vec![])]
    );
}

#[test]
fn delete_removes_the_rows_of_the_object() {
    let mut db = with_two_objects();
    let d = db.cf_handle::<D>().unwrap();
    let previous = db
        .rw_transaction(&[&d], |mut t, cfs| {
            let outcome = t.delete::<D>(&cfs[0], b"12");
            (t, outcome)
        })
        .unwrap();
    assert_eq!(previous, Some(D12.to_vec()));
    assert_eq!(contents(&db, "d-foo"), vec![(key([0, 0, 0, 2], b"21"), vec![])]);
    assert_eq!(contents(&db, "d-bar"), vec![(key([0, 0, 0, 1], b"21"), vec![])]);
}

#[test]
fn prefix_query() {
    let db = with_two_objects();
    let d = db.cf_handle::<D>().unwrap();
    let (t, cfs) = db.begin(Mode::ReadOnly, &[&d]).unwrap();
    let found = INDEX_FOO
        .query::<MemDb>(
            &BTreeQuery::prefix(&[0, 0, 0, 2]),
            t.as_backend(),
            cfs[0].datum_cf(),
            cfs[0].index_cfs(0),
        )
        .unwrap();
    assert_eq!(found.len(), 1);
    assert_eq!(found[0].0.as_ref(), b"21");
    assert_eq!(found[0].1, vec![0, 0, 0, 2, 0, 0, 0, 1]);
}

#[test]
fn rebuild_recovers_and_is_idempotent() {
    let db = with_two_objects();
    // Put a row into the index behind the back of the database.
    let mut engine = db.into_backend();
    let foo = engine.cf_handle("d-foo").unwrap();
    let (mut t, cfs) = engine.transaction(Mode::ReadWrite, &[&foo]).unwrap();
    t.put(&cfs[0], b"garbage", b"").unwrap();
    engine.commit(t).unwrap();
    let mut db = Db::new(engine);
    assert_eq!(contents(&db, "d-foo").len(), 3);

    assert_eq!(db.rebuild_index::<D, _>(INDEX_FOO), Ok(()));
    let rebuilt = contents(&db, "d-foo");
    assert_eq!(
        rebuilt,
        vec![(key([0, 0, 0, 1], b"12"), vec![]), (key([0, 0, 0, 2], b"21"), vec![])]
    );
    assert_eq!(db.rebuild_index::<D, _>(INDEX_FOO), Ok(()));
    assert_eq!(contents(&db, "d-foo"), rebuilt);
    assert_eq!(contents(&db, "d"), vec![(b"12".to_vec(), D12.to_vec()), (b"21".to_vec(), D21.to_vec())]);
    assert_eq!(contents(&db, "d-bar").len(), 2);
}

#[test]
fn reserved_cf_is_rejected() {
    let refused = MemDb::builder().cf_options("__sakuhiki_foo", ());
    assert_eq!(refused.err(), Some(BuilderError::ReservedCf("__sakuhiki_foo")));
}
