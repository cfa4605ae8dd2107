use sakuhiki::builder::CfOptions;
use sakuhiki::errors::BuilderError;
use sakuhiki::names::NameMap;
use sakuhiki::rocks::{
    can_plan_open, find_stored, plan_open, reuse_last_on_missing, Creation, Descriptor, OpenPlan,
    RocksDbBuilder,
};

fn existing(names: &[&str]) -> Vec<String> {
    names.iter().map(|n| n.to_string()).collect()
}

fn declared(entries: Vec<(&'static str, CfOptions<u32>)>) -> NameMap<CfOptions<u32>> {
    let mut map = NameMap::new();
    for (name, said) in entries {
        map.insert(name, said).unwrap();
    }
    map
}

#[test]
fn find_stored_compares_names() {
    let found = existing(&["default", "datum"]);
    assert_eq!(find_stored(&found, "datum"), Some(1));
    assert_eq!(find_stored(&found, "datum-foo"), None);
}

#[test]
fn a_fresh_database_creates_everything_declared() {
    let plan = plan_open(
        &existing(&["default"]),
        declared(vec![("datum", CfOptions::Configured(7)), ("datum-foo", CfOptions::NotConfigured)]),
        false,
    );
    assert_eq!(
        plan,
        OpenPlan {
            descriptors: vec![Descriptor { name: "default".to_string(), options: None }],
            drop: vec![],
            create: vec![
                Creation { name: "datum", options: Some(7) },
                Creation { name: "datum-foo", options: None },
            ],
        }
    );
}

#[test]
fn what_is_there_is_opened_with_its_new_options_or_its_last() {
    let plan = plan_open(
        &existing(&["default", "datum-foo", "datum", "old"]),
        declared(vec![
            ("datum", CfOptions::Configured(7)),
            ("datum-foo", CfOptions::ReuseLast),
            ("datum-bar", CfOptions::Configured(9)),
            ("old", CfOptions::NotConfigured),
        ]),
        false,
    );
    assert_eq!(
        plan.descriptors,
        vec![
            Descriptor { name: "default".to_string(), options: None },
            Descriptor { name: "datum-foo".to_string(), options: None },
            Descriptor { name: "datum".to_string(), options: Some(7) },
            Descriptor { name: "old".to_string(), options: None },
        ]
    );
    assert!(plan.drop.is_empty());
    assert_eq!(plan.create, vec![Creation { name: "datum-bar", options: Some(9) }]);
}

#[test]
fn unknown_cfs_are_dropped_where_that_is_asked_for() {
    let plan = plan_open(
        &existing(&["default", "datum", "stale", "datum-foo", "older"]),
        declared(vec![("datum", CfOptions::NotConfigured), ("datum-foo", CfOptions::ReuseLast)]),
        true,
    );
    assert_eq!(plan.drop, existing(&["default", "stale", "older"]));
    assert_eq!(plan.descriptors.len(), 5);
    assert!(plan.create.is_empty());
}

#[test]
fn keeping_the_options_of_a_missing_cf_is_a_misuse() {
    let found = existing(&["default", "datum"]);
    let cfs = declared(vec![
        ("datum", CfOptions::ReuseLast),
        ("datum-foo", CfOptions::ReuseLast),
        ("datum-bar", CfOptions::ReuseLast),
    ]);
    assert!(!can_plan_open(&found, &cfs));
    assert_eq!(reuse_last_on_missing(&found, &cfs), Some("datum-foo"));
    let there = existing(&["datum-bar", "datum", "datum-foo"]);
    assert!(can_plan_open(&there, &cfs));
    assert_eq!(reuse_last_on_missing(&there, &cfs), None);
    let plan = plan_open(&there, cfs, false);
    assert!(plan.create.is_empty());
    assert!(plan.descriptors.iter().all(|d| d.options.is_none()));
}

#[test]
fn an_empty_declaration_plans_nothing() {
    let plan = plan_open(&existing(&[]), declared(vec![]), true);
    assert_eq!(plan, OpenPlan { descriptors: vec![], drop: vec![], create: vec![] });
}

#[test]
fn a_cf_found_twice_gets_its_options_once() {
    let plan = plan_open(
        &existing(&["datum", "datum"]),
        declared(vec![("datum", CfOptions::Configured(7))]),
        false,
    );
    assert_eq!(
        plan.descriptors,
        vec![
            Descriptor { name: "datum".to_string(), options: Some(7) },
            Descriptor { name: "datum".to_string(), options: None },
        ]
    );
    assert!(plan.create.is_empty());
}

#[test]
fn engine_options_are_set_once() {
    let builder: RocksDbBuilder<u32, u64> = RocksDbBuilder::new("/tmp/db".to_string());
    let builder = builder.global_opts(1).ok().unwrap();
    let twice = builder.global_opts(2);
    assert_eq!(twice.err(), Some(BuilderError::OptionSetTwice("global options")));

    let builder: RocksDbBuilder<u32, u64> = RocksDbBuilder::new("/tmp/db".to_string());
    let builder = builder.txn_db_opts(1).ok().unwrap();
    let builder = builder.global_opts(5).ok().unwrap();
    let twice = builder.txn_db_opts(2);
    assert_eq!(twice.err(), Some(BuilderError::OptionSetTwice("TransactionDB options")));
}

#[test]
fn engine_options_come_out_as_they_went_in() {
    let builder: RocksDbBuilder<u32, u64> = RocksDbBuilder::new("/tmp/db".to_string());
    assert_eq!(builder.into_parts(), ("/tmp/db".to_string(), None, None));
    let builder: RocksDbBuilder<u32, u64> = RocksDbBuilder::new("/tmp/db".to_string());
    let builder = builder.global_opts(3).ok().unwrap().txn_db_opts(4).ok().unwrap();
    assert_eq!(builder.into_parts(), ("/tmp/db".to_string(), Some(3), Some(4)));
}
