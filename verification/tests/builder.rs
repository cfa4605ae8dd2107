use sakuhiki::backend::{Backend, Transaction};
use sakuhiki::btree::fixed_len::{FixedLenKey, FixedLenKeyExtractor};
use sakuhiki::btree::index::BTreeIndex;
use sakuhiki::builder::{needs_rebuild, rebuild_created, rebuilders_to_run, Builder, IndexRebuilder};
use sakuhiki::datum::{Datum, IndexedDatum};
use sakuhiki::db::Db;
use sakuhiki::errors::{BuilderError, Error};
use sakuhiki::indexer::Indexer;
use sakuhiki::memdb::{MemDb, MemDbBuilder};
use sakuhiki::mode::Mode;
use sakuhiki::range::KeyRange;

struct Pair {
    foo: u32,
}

fn parse(datum: &[u8]) -> Result<Pair, Error> {
    if datum.len() != 8 {
        return Err(Error::Parse(format!("expected 8-long slice, got {} bytes", datum.len())));
    }
    Ok(Pair { foo: u32::from_be_bytes(datum[..4].try_into().unwrap()) })
}

impl Datum for Pair {
    const CF: &'static str = "pair";

    fn from_slice(datum: &[u8]) -> Result<Self, Error> {
        parse(datum)
    }
}

struct Foo;

impl FixedLenKeyExtractor for Foo {
    type Datum = Pair;

    fn extract(&self, d: &Pair, key: &mut [u8]) -> bool {
        key.copy_from_slice(&d.foo.to_be_bytes());
        true
    }
}

const PAIR_FOO: &'static BTreeIndex<FixedLenKey<Foo>> =
    &BTreeIndex { cf: &["pair-foo"], key: FixedLenKey { len: 4, extractor: Foo } };
const RESERVED_FOO: &'static BTreeIndex<FixedLenKey<Foo>> =
    &BTreeIndex { cf: &["__sakuhiki-foo"], key: FixedLenKey { len: 4, extractor: Foo } };
const PAIR_ITSELF: &'static BTreeIndex<FixedLenKey<Foo>> =
    &BTreeIndex { cf: &["pair"], key: FixedLenKey { len: 4, extractor: Foo } };

impl IndexedDatum<MemDb> for Pair {
    const INDEXES: &'static [&'static dyn Indexer<MemDb>] = &[PAIR_FOO];
}

/// A second type of objects, in a column family of its own.
struct Other;

impl Datum for Other {
    const CF: &'static str = "other";

    fn from_slice(_: &[u8]) -> Result<Self, Error> {
        Ok(Other)
    }
}

impl IndexedDatum<MemDb> for Other {
    const INDEXES: &'static [&'static dyn Indexer<MemDb>] = &[];
}

/// Objects that claim the column family of an index of `Pair`.
struct Squatter;

impl Datum for Squatter {
    const CF: &'static str = "pair-foo";

    fn from_slice(_: &[u8]) -> Result<Self, Error> {
        Ok(Squatter)
    }
}

impl IndexedDatum<MemDb> for Squatter {
    const INDEXES: &'static [&'static dyn Indexer<MemDb>] = &[];
}

/// Objects in a reserved column family.
struct Reserved;

impl Datum for Reserved {
    const CF: &'static str = "__sakuhiki_data";

    fn from_slice(_: &[u8]) -> Result<Self, Error> {
        Ok(Reserved)
    }
}

impl IndexedDatum<MemDb> for Reserved {
    const INDEXES: &'static [&'static dyn Indexer<MemDb>] = &[];
}

/// Objects with an index in a reserved column family.
struct ReservedIndex;

impl Datum for ReservedIndex {
    const CF: &'static str = "fine";

    fn from_slice(_: &[u8]) -> Result<Self, Error> {
        Ok(ReservedIndex)
    }
}

impl IndexedDatum<MemDb> for ReservedIndex {
    const INDEXES: &'static [&'static dyn Indexer<MemDb>] = &[RESERVED_FOO];
}

/// Objects with two indexes in one column family.
struct Twice;

impl Datum for Twice {
    const CF: &'static str = "twice";

    fn from_slice(_: &[u8]) -> Result<Self, Error> {
        Ok(Twice)
    }
}

impl IndexedDatum<MemDb> for Twice {
    const INDEXES: &'static [&'static dyn Indexer<MemDb>] = &[PAIR_FOO, PAIR_FOO];
}

fn misuse(r: Result<Builder<MemDbBuilder>, BuilderError>) -> BuilderError {
    match r {
        Ok(_) => panic!("the builder took what it should refuse"),
        Err(e) => e,
    }
}

#[test]
fn build_creates_every_declared_cf() {
    let builder = MemDb::builder();
    assert!(builder.can_declare::<Pair>());
    let builder = builder.datum::<Pair>();
    assert_eq!(builder.datum_misuse::<Other>(), None);
    let builder = builder.datum::<Other>();
    assert!(builder.is_valid());
    let db = builder.build().unwrap();
    let engine = db.as_backend();
    for name in ["pair", "pair-foo", "other"] {
        assert!(engine.has_cf(name));
    }
    assert!(!engine.has_cf("zzz"));
    assert!(db.cf_handle::<Pair>().is_ok());
    assert!(db.cf_handle::<Other>().is_ok());
}

#[test]
fn a_fresh_database_is_empty() {
    let db = MemDb::builder().datum::<Pair>().build().unwrap();
    for name in ["pair", "pair-foo"] {
        assert!(keys(db.as_backend(), name).is_empty());
    }
}

#[test]
fn cf_handle_of_an_undeclared_type_fails() {
    let db = MemDb::builder().datum::<Other>().build().unwrap();
    let failure = db.cf_handle::<Pair>().err().unwrap();
    assert_eq!(failure.cf(), Some("pair"));
    assert_eq!(failure.message(), "Failed retrieving CF handle for \u{2018}pair\u{2019}");
    assert!(matches!(failure, Error::Cf { source, .. } if *source == Error::NoSuchCf("pair")));
}

#[test]
fn cf_handle_names_the_first_missing_index_cf() {
    let mut engine = MemDb::new();
    engine.create_cf("pair");
    let db = Db::new(engine);
    let failure = db.cf_handle::<Pair>().err().unwrap();
    assert_eq!(failure.cf(), Some("pair-foo"));
    assert_eq!(failure.message(), "Failed retrieving CF handle for \u{2018}pair-foo\u{2019}");
    assert!(matches!(failure, Error::Cf { source, .. } if *source == Error::NoSuchCf("pair-foo")));
}

#[test]
fn reserved_cf_options_are_rejected() {
    assert_eq!(
        misuse(MemDb::builder().cf_options("__sakuhiki_foo", ())),
        BuilderError::ReservedCf("__sakuhiki_foo")
    );
    assert_eq!(
        misuse(MemDb::builder().cf_options_reuse_last("__sakuhiki")),
        BuilderError::ReservedCf("__sakuhiki")
    );
}

#[test]
fn reserved_declarations_are_refused() {
    let builder = MemDb::builder();
    assert!(!builder.can_declare::<Reserved>());
    assert_eq!(
        builder.datum_misuse::<Reserved>(),
        Some(BuilderError::ReservedCf("__sakuhiki_data"))
    );
    assert!(!builder.can_declare::<ReservedIndex>());
    assert_eq!(
        builder.datum_misuse::<ReservedIndex>(),
        Some(BuilderError::ReservedCf("__sakuhiki-foo"))
    );
    assert!(builder.can_declare::<Pair>());
}

#[test]
fn a_cf_is_declared_once() {
    let builder = MemDb::builder().datum::<Pair>();
    assert!(!builder.can_declare::<Pair>());
    assert_eq!(builder.datum_misuse::<Pair>(), Some(BuilderError::DuplicateCf("pair")));
    assert_eq!(builder.datum_misuse::<Squatter>(), Some(BuilderError::DuplicateCf("pair-foo")));
    assert_eq!(builder.datum_misuse::<Other>(), None);
    let builder = MemDb::builder().datum::<Squatter>();
    assert_eq!(builder.datum_misuse::<Pair>(), Some(BuilderError::DuplicateCf("pair-foo")));
    assert_eq!(
        MemDb::builder().datum_misuse::<Twice>(),
        Some(BuilderError::DuplicateCf("pair-foo"))
    );
}

#[test]
fn a_cf_is_configured_once() {
    let builder = MemDb::builder().cf_options("pair", ()).unwrap();
    assert_eq!(misuse(builder.cf_options("pair", ())), BuilderError::ConfiguredTwice("pair"));
    let builder = MemDb::builder().cf_options("pair", ()).unwrap();
    assert_eq!(misuse(builder.cf_options_reuse_last("pair")), BuilderError::ConfiguredTwice("pair"));
}

#[test]
fn left_over_options_are_refused_unless_allowed() {
    let builder = MemDb::builder().datum::<Other>().cf_options("stray", ()).unwrap();
    assert!(!builder.is_valid());
    assert_eq!(builder.build_misuse(), Some(BuilderError::UnusedConfig("stray")));
    let builder = builder.allow_extra_cf_config();
    assert!(builder.is_valid());
    assert_eq!(builder.build_misuse(), None);
    let db = builder.build().unwrap();
    assert!(db.as_backend().has_cf("other"));
    assert!(!db.as_backend().has_cf("stray"));
}

#[test]
fn every_cf_is_configured_where_that_is_asked_for() {
    let builder = MemDb::builder()
        .datum::<Pair>()
        .cf_options("pair", ())
        .unwrap()
        .require_all_cfs_configured();
    assert!(!builder.is_valid());
    assert_eq!(builder.build_misuse(), Some(BuilderError::NotConfigured("pair-foo")));
    let builder = MemDb::builder()
        .require_all_cfs_configured()
        .datum::<Pair>()
        .cf_options("pair-foo", ())
        .unwrap()
        .cf_options("pair", ())
        .unwrap();
    assert!(builder.is_valid());
    assert!(builder.build().is_ok());
}

#[test]
fn keeping_the_last_options_is_not_configuring() {
    let builder = MemDb::builder()
        .datum::<Other>()
        .cf_options_reuse_last("other")
        .unwrap()
        .require_all_cfs_configured();
    assert_eq!(builder.build_misuse(), Some(BuilderError::NotConfigured("other")));
}

#[test]
fn the_first_misuse_is_reported() {
    let builder = MemDb::builder()
        .datum::<Pair>()
        .cf_options("stray", ())
        .unwrap()
        .require_all_cfs_configured();
    assert_eq!(builder.build_misuse(), Some(BuilderError::NotConfigured("pair")));
}

#[test]
fn switches_and_backend_config_keep_the_declarations() {
    let builder = MemDb::builder()
        .datum::<Pair>()
        .drop_unknown_cfs()
        .backend_config(|backend| backend)
        .allow_extra_cf_config();
    let db = builder.build().unwrap();
    assert!(db.as_backend().has_cf("pair-foo"));
}

#[test]
fn an_empty_declaration_builds_an_empty_database() {
    let builder = MemDb::builder();
    assert!(builder.is_valid());
    let db = builder.build().unwrap();
    assert!(!db.as_backend().has_cf("pair"));
}

fn rebuilders() -> Vec<IndexRebuilder<&'static dyn Indexer<MemDb>>> {
    vec![
        IndexRebuilder::new("pair", &["pair-foo"], PAIR_FOO as &'static dyn Indexer<MemDb>),
        IndexRebuilder::new("other", &["other-a", "other-b"], PAIR_FOO as &'static dyn Indexer<MemDb>),
    ]
}

#[test]
fn an_index_is_rebuilt_where_one_of_its_cfs_is_new() {
    let all = rebuilders();
    assert!(needs_rebuild(&["pair"], &all[0]));
    assert!(needs_rebuild(&["x", "pair-foo"], &all[0]));
    assert!(!needs_rebuild(&["other", "other-a"], &all[0]));
    assert!(!needs_rebuild(&[], &all[0]));
    assert!(needs_rebuild(&["other-b"], &all[1]));
    assert_eq!(rebuilders_to_run(&["pair-foo", "other-b"], &all), vec![0, 1]);
    assert_eq!(rebuilders_to_run(&["other"], &all), vec![1]);
    assert_eq!(rebuilders_to_run(&["zzz"], &all), Vec::<usize>::new());
}

fn engine_with_pairs() -> MemDb {
    let mut engine = MemDb::new();
    engine.create_cf("pair");
    engine.create_cf("pair-foo");
    let pair = engine.cf_handle("pair").unwrap();
    let (mut t, cfs) = engine.transaction(Mode::ReadWrite, &[&pair]).unwrap();
    t.put(&cfs[0], b"12", &[0, 0, 0, 1, 0, 0, 0, 2]).unwrap();
    t.put(&cfs[0], b"21", &[0, 0, 0, 2, 0, 0, 0, 1]).unwrap();
    engine.commit(t).unwrap();
    engine
}

fn keys(engine: &MemDb, name: &'static str) -> Vec<Vec<u8>> {
    let cf = engine.cf_handle(name).unwrap();
    let (t, cfs) = engine.transaction(Mode::ReadOnly, &[&cf]).unwrap();
    t.scan(&cfs[0], &KeyRange::all()).unwrap().into_iter().map(|p| p.0).collect()
}

#[test]
fn rebuild_created_fills_the_new_index() {
    let mut engine = engine_with_pairs();
    let all = vec![IndexRebuilder::new(
        "pair",
        &["pair-foo"],
        PAIR_FOO as &'static dyn Indexer<MemDb>,
    )];
    assert_eq!(rebuild_created(&mut engine, &["zzz"], &all), Ok(()));
    assert!(keys(&engine, "pair-foo").is_empty());
    assert_eq!(rebuild_created(&mut engine, &["pair-foo"], &all), Ok(()));
    assert_eq!(
        keys(&engine, "pair-foo"),
        vec![b"\x00\x00\x00\x0112".to_vec(), b"\x00\x00\x00\x0221".to_vec()]
    );
    assert_eq!(keys(&engine, "pair").len(), 2);
}

#[test]
fn rebuild_created_stops_at_the_first_failure() {
    let mut engine = engine_with_pairs();
    let all = vec![IndexRebuilder::new(
        "missing",
        &["pair-foo"],
        PAIR_FOO as &'static dyn Indexer<MemDb>,
    )];
    let failure = rebuild_created(&mut engine, &["pair-foo"], &all).err().unwrap();
    assert_eq!(failure.message(), "Failed rebuilding index");
    assert_eq!(failure.cf(), Some("missing"));
    assert!(keys(&engine, "pair-foo").is_empty());
}

#[test]
fn an_index_in_the_cf_of_its_objects_is_refused() {
    let mut engine = engine_with_pairs();
    let rebuilder = IndexRebuilder::new("pair", &["pair"], PAIR_ITSELF as &'static dyn Indexer<MemDb>);
    assert_eq!(rebuilder.run(&mut engine), Err(Error::Builder(BuilderError::DuplicateCf("pair"))));
    assert_eq!(keys(&engine, "pair").len(), 2);
}
