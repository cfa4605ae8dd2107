use sakuhiki::backend::{Backend, Transaction};
use sakuhiki::btree::composite::CompositeKey;
use sakuhiki::btree::fixed_len::{FixedLenKey, FixedLenKeyExtractor};
use sakuhiki::btree::index::BTreeIndex;
use sakuhiki::btree::key::Key;
use sakuhiki::btree::query::BTreeQuery;
use sakuhiki::datum::{Datum, IndexedDatum};
use sakuhiki::db::Db;
use sakuhiki::end_index::EndIndex;
use sakuhiki::errors::Error;
use sakuhiki::index::Index;
use sakuhiki::indexer::{default_rebuild, IndexMaintenance, Indexer};
use sakuhiki::memdb::MemDb;
use sakuhiki::mode::Mode;
use sakuhiki::range::KeyRange;
use std::marker::PhantomData;

#[derive(Debug, PartialEq, Eq)]
struct Point {
    x: u16,
    y: u16,
}

fn point(x: u16, y: u16) -> [u8; 4] {
    let mut bytes = [0; 4];
    bytes[..2].copy_from_slice(&x.to_be_bytes());
    bytes[2..].copy_from_slice(&y.to_be_bytes());
    bytes
}

impl Datum for Point {
    const CF: &'static str = "point";

    fn from_slice(datum: &[u8]) -> Result<Self, Error> {
        if datum.len() != 4 {
            return Err(Error::Parse(format!("expected 4 bytes, got {}", datum.len())));
        }
        Ok(Point {
            x: u16::from_be_bytes([datum[0], datum[1]]),
            y: u16::from_be_bytes([datum[2], datum[3]]),
        })
    }
}

struct X;

impl FixedLenKeyExtractor for X {
    type Datum = Point;

    fn extract(&self, p: &Point, key: &mut [u8]) -> bool {
        key.copy_from_slice(&p.x.to_be_bytes());
        true
    }
}

/// Extracts `y`, and leaves out the points on the axis.
struct PositiveY;

impl FixedLenKeyExtractor for PositiveY {
    type Datum = Point;

    fn extract(&self, p: &Point, key: &mut [u8]) -> bool {
        key.copy_from_slice(&p.y.to_be_bytes());
        p.y != 0
    }
}

type XThenY = CompositeKey<FixedLenKey<X>, FixedLenKey<PositiveY>>;

const BY_X: &'static BTreeIndex<FixedLenKey<X>> =
    &BTreeIndex { cf: &["point-x"], key: FixedLenKey { len: 2, extractor: X } };
const BY_Y: &'static BTreeIndex<FixedLenKey<PositiveY>> =
    &BTreeIndex { cf: &["point-y"], key: FixedLenKey { len: 2, extractor: PositiveY } };
const BY_XY: &'static BTreeIndex<XThenY> = &BTreeIndex {
    cf: &["point-xy"],
    key: CompositeKey {
        outer: FixedLenKey { len: 2, extractor: X },
        inner: FixedLenKey { len: 2, extractor: PositiveY },
    },
};
const ALL: &'static EndIndex<Point> = &EndIndex { cfs: &["point-all"], _phantom: PhantomData };

impl IndexedDatum<MemDb> for Point {
    const INDEXES: &'static [&'static dyn Indexer<MemDb>] = &[BY_X, BY_Y, BY_XY, ALL];
}

fn open() -> Db<MemDb> {
    MemDb::builder().datum::<Point>().build().unwrap()
}

fn keys(db: &Db<MemDb>, name: &'static str) -> Vec<Vec<u8>> {
    let engine = db.as_backend();
    let cf = engine.cf_handle(name).unwrap();
    let (t, cfs) = engine.transaction(Mode::ReadOnly, &[&cf]).unwrap();
    let rows = t.scan(&cfs[0], &KeyRange::all()).unwrap();
    assert!(rows.iter().all(|row| row.1.is_empty()));
    rows.into_iter().map(|row| row.0).collect()
}

fn fill(db: &mut Db<MemDb>) {
    let points = db.cf_handle::<Point>().unwrap();
    let (mut t, cfs) = db.begin(Mode::ReadWrite, &[&points]).unwrap();
    assert_eq!(t.current_mode(), Mode::ReadWrite);
    t.put::<Point>(&cfs[0], b"a", &point(1, 2)).unwrap();
    t.put::<Point>(&cfs[0], b"b", &point(1, 0)).unwrap();
    t.put::<Point>(&cfs[0], b"c", &point(2, 2)).unwrap();
    db.commit(t).unwrap();
}

#[test]
fn every_index_holds_the_rows_of_its_objects() {
    let mut db = open();
    fill(&mut db);
    assert_eq!(keys(&db, "point-x"), vec![b"\x00\x01a".to_vec(), b"\x00\x01b".to_vec(), b"\x00\x02c".to_vec()]);
    // The point on the axis is left out.
    assert_eq!(keys(&db, "point-y"), vec![b"\x00\x02a".to_vec(), b"\x00\x02c".to_vec()]);
    assert_eq!(
        keys(&db, "point-xy"),
        vec![b"\x00\x01\x00\x02a".to_vec(), b"\x00\x02\x00\x02c".to_vec()]
    );
    assert_eq!(keys(&db, "point-all"), vec![b"a".to_vec(), b"b".to_vec(), b"c".to_vec()]);
}

#[test]
fn a_write_moves_an_object_in_and_out_of_an_index() {
    let mut db = open();
    fill(&mut db);
    let points = db.cf_handle::<Point>().unwrap();
    let (mut t, cfs) = db.begin(Mode::ReadWrite, &[&points]).unwrap();
    // Onto the axis: out of the indexes on y.
    t.put::<Point>(&cfs[0], b"a", &point(1, 0)).unwrap();
    // Off the axis: into them.
    t.put::<Point>(&cfs[0], b"b", &point(3, 5)).unwrap();
    t.delete::<Point>(&cfs[0], b"c").unwrap();
    assert_eq!(t.delete::<Point>(&cfs[0], b"zzz").unwrap(), None);
    db.commit(t).unwrap();
    assert_eq!(keys(&db, "point-x"), vec![b"\x00\x01a".to_vec(), b"\x00\x03b".to_vec()]);
    assert_eq!(keys(&db, "point-y"), vec![b"\x00\x05b".to_vec()]);
    assert_eq!(keys(&db, "point-xy"), vec![b"\x00\x03\x00\x05b".to_vec()]);
    assert_eq!(keys(&db, "point-all"), vec![b"a".to_vec(), b"b".to_vec()]);
}

#[test]
fn a_composite_key_is_queried_by_its_front_part() {
    let mut db = open();
    fill(&mut db);
    let points = db.cf_handle::<Point>().unwrap();
    let (t, cfs) = db.begin(Mode::ReadOnly, &[&points]).unwrap();
    assert_eq!(t.current_mode(), Mode::ReadOnly);
    let found = BY_XY
        .query::<MemDb>(
            &BTreeQuery::prefix(&[0, 2]),
            t.as_backend(),
            cfs[0].datum_cf(),
            cfs[0].index_cfs(2),
        )
        .unwrap();
    assert_eq!(found.len(), 1);
    assert_eq!(found[0].0.as_ref(), b"c");
    assert_eq!(found[0].1, point(2, 2).to_vec());
    let through_the_trait = <BTreeIndex<XThenY> as Index<MemDb>>::query(
        BY_XY,
        &BTreeQuery::equal(&[0, 1, 0, 2]),
        t.as_backend(),
        cfs[0].datum_cf(),
        cfs[0].index_cfs(2),
    )
    .unwrap();
    assert_eq!(through_the_trait.len(), 1);
    assert_eq!(through_the_trait[0].0.as_ref(), b"a");
}

#[test]
fn key_len_finds_the_boundary() {
    assert_eq!(BY_X.key.key_len(b"\x00\x01abc"), 2);
    assert_eq!(BY_XY.key.key_len(b"\x00\x01\x00\x02abc"), 4);
    assert_eq!(BY_XY.key.len_hint(&Point { x: 1, y: 2 }), 4);
    assert_eq!(BY_X.key.len_hint(&Point { x: 1, y: 2 }), 2);
    assert_eq!(BY_X.key.len_hint_from_slice(b"anything"), Ok(2));
    assert_eq!(BY_XY.key.len_hint_from_slice(&point(1, 2)), Ok(4));
    let unparsed = BY_XY.key.len_hint_from_slice(b"short").err().unwrap();
    assert_eq!(unparsed.message(), "Failed to parse datum");
    let mut key = b"pre".to_vec();
    assert!(BY_XY.key.extract_key(&Point { x: 1, y: 2 }, &mut key));
    assert_eq!(key, b"pre\x00\x01\x00\x02".to_vec());
    let mut key = Vec::new();
    assert_eq!(BY_XY.key.extract_key_from_slice(&point(7, 9), &mut key), Ok(true));
    assert_eq!(key, vec![0, 7, 0, 9]);
    let mut key = Vec::new();
    assert_eq!(BY_Y.key.extract_key_from_slice(&point(7, 0), &mut key), Ok(false));
    assert!(BY_Y.key.extract_key_from_slice(b"short", &mut key).is_err());
    assert!(!BY_XY.key.extract_key(&Point { x: 1, y: 0 }, &mut Vec::new()));
    let made = CompositeKey::new(FixedLenKey::new(2, X), FixedLenKey::new(2, PositiveY));
    assert_eq!(made.key_len(b"\x00\x01\x00\x02abc"), 4);
}

#[test]
fn typed_index_and_unindex_write_one_row() {
    let db = open();
    let points = db.cf_handle::<Point>().unwrap();
    let engine = db.as_backend();
    let x = engine.cf_handle("point-x").unwrap();
    let (mut t, cfs) = engine.transaction(Mode::ReadWrite, &[&x]).unwrap();
    BY_X.index::<MemDb>(b"k", &Point { x: 258, y: 0 }, &mut t, &cfs).unwrap();
    assert_eq!(t.get(&cfs[0], b"\x01\x02k").unwrap(), Some(vec![]));
    BY_X.unindex::<MemDb>(b"k", &Point { x: 258, y: 0 }, &mut t, &cfs).unwrap();
    assert_eq!(t.get(&cfs[0], b"\x01\x02k").unwrap(), None);
    let _ = points;
}

#[test]
fn the_terminal_index_puts_the_object_key_behind_the_prefix() {
    let db = open();
    let engine = db.as_backend();
    let all = engine.cf_handle("point-all").unwrap();
    let (mut t, cfs) = engine.transaction(Mode::ReadWrite, &[&all]).unwrap();
    let made = EndIndex::<Point>::new(&["point-all"]);
    let p = Point { x: 1, y: 2 };
    assert_eq!(made.index_key_len(b"key", &p), 3);
    let mut index_key = b"prefix-".to_vec();
    made.index::<MemDb>(b"key", &p, &mut t, &cfs[0], &mut index_key).unwrap();
    assert_eq!(index_key, b"prefix-key".to_vec());
    assert_eq!(t.get(&cfs[0], b"prefix-key").unwrap(), Some(vec![]));
    let mut index_key = b"prefix-".to_vec();
    made.unindex::<MemDb>(b"key", &p, &mut t, &cfs[0], &mut index_key).unwrap();
    assert_eq!(t.get(&cfs[0], b"prefix-key").unwrap(), None);
}

#[test]
fn a_rebuild_needs_the_rebuilding_mode() {
    let mut db = open();
    fill(&mut db);
    let engine = db.as_backend();
    let x = engine.cf_handle("point-x").unwrap();
    let points = engine.cf_handle("point").unwrap();
    for mode in [Mode::ReadOnly, Mode::ReadWrite] {
        let (mut t, mut cfs) = engine.transaction(mode, &[&x, &points]).unwrap();
        let datum_cf = cfs.pop().unwrap();
        let refused = Error::InvalidTransactionMode { expected: Mode::IndexRebuilding, actual: mode };
        assert_eq!(default_rebuild::<MemDb, _>(BY_X, &mut t, &cfs, &datum_cf), Err(refused));
        let refused = Error::InvalidTransactionMode { expected: Mode::IndexRebuilding, actual: mode };
        assert_eq!(Indexer::<MemDb>::rebuild(BY_X, &mut t, &cfs, &datum_cf), Err(refused));
        // Nothing was cleared.
        assert_eq!(t.scan(&cfs[0], &KeyRange::all()).unwrap().len(), 3);
    }
    let (mut t, mut cfs) = engine.transaction(Mode::IndexRebuilding, &[&x, &points]).unwrap();
    let datum_cf = cfs.pop().unwrap();
    assert_eq!(default_rebuild::<MemDb, _>(BY_X, &mut t, &cfs, &datum_cf), Ok(()));
    assert_eq!(t.scan(&cfs[0], &KeyRange::all()).unwrap().len(), 3);
}

#[test]
fn a_rebuild_fails_on_an_object_that_does_not_parse() {
    let db = open();
    let mut engine = db.into_backend();
    let points = engine.cf_handle("point").unwrap();
    let (mut t, cfs) = engine.transaction(Mode::ReadWrite, &[&points]).unwrap();
    t.put(&cfs[0], b"a", &point(1, 2)).unwrap();
    t.put(&cfs[0], b"bad", b"short").unwrap();
    engine.commit(t).unwrap();
    let mut db = Db::new(engine);
    let failure = db.rebuild_index::<Point, _>(BY_X).err().unwrap();
    assert!(matches!(
        &failure,
        Error::Indexing { key, datum, .. } if key == b"bad" && datum == b"short"
    ));
    // The failed rebuild wrote nothing.
    assert!(keys(&db, "point-x").is_empty());
}

#[test]
fn indexers_name_their_column_families() {
    assert_eq!(IndexMaintenance::<MemDb>::cfs(BY_X), &["point-x"]);
    assert_eq!(IndexMaintenance::<MemDb>::cfs(ALL), &["point-all"]);
}

#[test]
fn finish_commits_what_succeeded_and_drops_what_failed() {
    let mut db = open();
    let points = db.cf_handle::<Point>().unwrap();

    let (mut t, cfs) = db.begin(Mode::ReadWrite, &[&points]).unwrap();
    let outcome = t.put::<Point>(&cfs[0], b"a", &point(1, 2));
    assert_eq!(db.finish(t, outcome), Ok(None));
    assert_eq!(keys(&db, "point-x"), vec![b"\x00\x01a".to_vec()]);

    let (mut t, cfs) = db.begin(Mode::ReadWrite, &[&points]).unwrap();
    t.put::<Point>(&cfs[0], b"b", &point(5, 5)).unwrap();
    let outcome = t.put::<Point>(&cfs[0], b"c", b"short");
    let failure = db.finish(t, outcome).err().unwrap();
    assert_eq!(failure.message(), "Failed indexing new value");
    // Neither the object that failed nor the one before it was written.
    assert_eq!(keys(&db, "point-x"), vec![b"\x00\x01a".to_vec()]);
    assert_eq!(keys(&db, "point-all"), vec![b"a".to_vec()]);
    let (t, cfs) = db.begin(Mode::ReadOnly, &[&points]).unwrap();
    assert_eq!(t.get(&cfs[0], b"b").unwrap(), None);
    assert_eq!(t.scan(&cfs[0], &KeyRange::all()).unwrap().len(), 1);
}

#[test]
fn a_write_in_a_read_only_transaction_names_the_column_family() {
    let mut db = open();
    fill(&mut db);
    let points = db.cf_handle::<Point>().unwrap();
    let (mut t, cfs) = db.begin(Mode::ReadOnly, &[&points]).unwrap();
    let failure = t.put::<Point>(&cfs[0], b"a", &point(9, 9)).err().unwrap();
    assert_eq!(failure.message(), "Failed putting value into \u{2018}point\u{2019}");
    assert_eq!(failure.cf(), Some("point"));
    assert!(failure.is_invalid_mode());
    let failure = t.delete::<Point>(&cfs[0], b"a").err().unwrap();
    assert_eq!(failure.message(), "Failed deleting from \u{2018}point\u{2019}");
    assert!(failure.is_invalid_mode());
    assert_eq!(t.get(&cfs[0], b"a").unwrap(), Some(point(1, 2).to_vec()));
}

#[test]
fn several_records_in_one_transaction() {
    let mut db = open();
    let points = db.cf_handle::<Point>().unwrap();
    assert_eq!(points.index_count(), 4);
    let (mut t, cfs) = db.begin(Mode::ReadWrite, &[&points, &points]).unwrap();
    assert_eq!(cfs.len(), 2);
    assert_eq!(cfs[1].index_count(), 4);
    t.put::<Point>(&cfs[1], b"a", &point(1, 2)).unwrap();
    assert_eq!(t.get(&cfs[0], b"a").unwrap(), Some(point(1, 2).to_vec()));
    db.commit(t).unwrap();
    assert_eq!(keys(&db, "point-all"), vec![b"a".to_vec()]);
}

#[test]
fn a_failed_rebuild_leaves_only_the_rows_of_smaller_keys() {
    let db = open();
    let mut engine = db.into_backend();
    let points = engine.cf_handle("point").unwrap();
    let x = engine.cf_handle("point-x").unwrap();
    let (mut t, cfs) = engine.transaction(Mode::ReadWrite, &[&points, &x]).unwrap();
    t.put(&cfs[0], b"a", &point(1, 2)).unwrap();
    t.put(&cfs[0], b"b", b"short").unwrap();
    t.put(&cfs[0], b"c", &point(3, 4)).unwrap();
    t.put(&cfs[1], b"stale", b"").unwrap();
    engine.commit(t).unwrap();

    let (mut t, mut cfs) = engine.transaction(Mode::IndexRebuilding, &[&x, &points]).unwrap();
    let datum_cf = cfs.pop().unwrap();
    let failure = default_rebuild::<MemDb, _>(BY_X, &mut t, &cfs, &datum_cf).err().unwrap();
    assert!(matches!(
        &failure,
        Error::Indexing { key, datum, .. } if key == b"b" && datum == b"short"
    ));
    let left: Vec<Vec<u8>> =
        t.scan(&cfs[0], &KeyRange::all()).unwrap().into_iter().map(|row| row.0).collect();
    assert_eq!(left, vec![b"\x00\x01a".to_vec()]);
    assert_eq!(t.scan(&datum_cf, &KeyRange::all()).unwrap().len(), 3);
}

#[test]
fn deleting_an_absent_key_changes_nothing() {
    let mut db = open();
    fill(&mut db);
    let before: Vec<Vec<Vec<u8>>> =
        ["point-x", "point-y", "point-xy", "point-all"].map(|n| keys(&db, n)).to_vec();
    let points = db.cf_handle::<Point>().unwrap();
    let deleted = db
        .rw_transaction(&[&points], |mut t, cfs| {
            let outcome = t.delete::<Point>(&cfs[0], b"absent");
            (t, outcome)
        })
        .unwrap();
    assert_eq!(deleted, None);
    let after: Vec<Vec<Vec<u8>>> =
        ["point-x", "point-y", "point-xy", "point-all"].map(|n| keys(&db, n)).to_vec();
    assert_eq!(before, after);
    let (t, cfs) = db.begin(Mode::ReadOnly, &[&points]).unwrap();
    let objects: Vec<Vec<u8>> =
        t.scan(&cfs[0], &KeyRange::all()).unwrap().into_iter().map(|row| row.0).collect();
    assert_eq!(objects, vec![b"a".to_vec(), b"b".to_vec(), b"c".to_vec()]);
}

#[test]
fn a_rebuild_names_the_column_family_that_is_missing() {
    let mut engine = MemDb::new();
    engine.create_cf("point");
    let mut db = Db::new(engine);
    let failure = db.rebuild_index::<Point, _>(BY_X).err().unwrap();
    assert_eq!(failure.cf(), Some("point-x"));
    assert!(matches!(failure, Error::Cf { source, .. } if *source == Error::NoSuchCf("point-x")));

    let mut engine = MemDb::new();
    engine.create_cf("point-x");
    let mut db = Db::new(engine);
    let failure = db.rebuild_index::<Point, _>(BY_X).err().unwrap();
    assert_eq!(failure.cf(), Some("point"));
    assert_eq!(failure.message(), "Failed retrieving CF handle for \u{2018}point\u{2019}");
    assert!(matches!(failure, Error::Cf { source, .. } if *source == Error::NoSuchCf("point")));
}

#[test]
fn a_transaction_hands_on_the_failure_of_its_actions() {
    let mut db = open();
    let points = db.cf_handle::<Point>().unwrap();
    let failure = db.transaction(Mode::ReadWrite, &[&points], |t, _| {
        (t, Err::<(), Error>(Error::Engine("gave up".to_string())))
    });
    assert_eq!(failure, Err(Error::Engine("gave up".to_string())));
}

#[test]
fn index_maintenance_writes_one_row_or_none() {
    let db = open();
    let engine = db.as_backend();
    let y = engine.cf_handle("point-y").unwrap();
    let (mut t, cfs) = engine.transaction(Mode::ReadWrite, &[&y]).unwrap();
    t.put(&cfs[0], b"other", b"kept").unwrap();
    // An object that the extractor takes: one row.
    IndexMaintenance::<MemDb>::index_from_slice(BY_Y, b"k", &point(1, 7), &mut t, &cfs).unwrap();
    let rows = t.scan(&cfs[0], &KeyRange::all()).unwrap();
    assert_eq!(rows, vec![(b"\x00\x07k".to_vec(), vec![]), (b"other".to_vec(), b"kept".to_vec())]);
    // An object that it leaves out: none, and no failure.
    IndexMaintenance::<MemDb>::index_from_slice(BY_Y, b"z", &point(1, 0), &mut t, &cfs).unwrap();
    assert_eq!(t.scan(&cfs[0], &KeyRange::all()).unwrap(), rows);
    // An object that does not parse: a failure, and nothing written.
    assert!(IndexMaintenance::<MemDb>::index_from_slice(BY_Y, b"z", b"short", &mut t, &cfs).is_err());
    assert_eq!(t.scan(&cfs[0], &KeyRange::all()).unwrap(), rows);
    assert!(IndexMaintenance::<MemDb>::unindex_from_slice(BY_Y, b"k", b"short", &mut t, &cfs).is_err());
    assert_eq!(t.scan(&cfs[0], &KeyRange::all()).unwrap(), rows);
    IndexMaintenance::<MemDb>::unindex_from_slice(BY_Y, b"k", &point(1, 7), &mut t, &cfs).unwrap();
    assert_eq!(
        t.scan(&cfs[0], &KeyRange::all()).unwrap(),
        vec![(b"other".to_vec(), b"kept".to_vec())]
    );
}
