use sakuhiki::errors::{BuilderError, CfOperationError, Error};
use sakuhiki::mode::Mode;

#[test]
fn cf_operation_error_keeps_what_it_was_made_from() {
    let e = CfOperationError::new("Failed putting value into", "datum");
    assert_eq!(e.cf(), "datum");
    assert_eq!(e.msg(), "Failed putting value into");
    assert_eq!(e.message(), "Failed putting value into \u{2018}datum\u{2019}");
}

#[test]
fn retrieving_cf_names_the_cf() {
    let e = CfOperationError::retrieving_cf("datum-foo");
    assert_eq!(e.cf(), "datum-foo");
    assert_eq!(e.message(), "Failed retrieving CF handle for \u{2018}datum-foo\u{2019}");
    assert_eq!(e, CfOperationError::new("Failed retrieving CF handle for", "datum-foo"));
}

#[test]
fn invalid_mode_message_names_both_modes() {
    let e = Error::InvalidTransactionMode { expected: Mode::IndexRebuilding, actual: Mode::ReadWrite };
    assert_eq!(e.message(), "Invalid transaction mode: expected IndexRebuilding, got ReadWrite");
    assert!(e.is_invalid_mode());
    assert_eq!(e.cf(), None);
}

#[test]
fn mode_names() {
    assert_eq!(Mode::ReadOnly.name(), "ReadOnly");
    assert_eq!(Mode::ReadWrite.name(), "ReadWrite");
    assert_eq!(Mode::IndexRebuilding.name(), "IndexRebuilding");
    assert!(!Mode::ReadOnly.allows_writes());
    assert!(Mode::ReadWrite.allows_writes());
    assert!(Mode::IndexRebuilding.allows_writes());
}

#[test]
fn plain_failures_speak_for_themselves() {
    assert_eq!(Error::NoSuchCf("d").message(), "CF d does not exist");
    assert_eq!(Error::NoSuchCf("d").cf(), Some("d"));
    assert_eq!(Error::Conflict("d").message(), "CF d was changed by another transaction");
    assert_eq!(Error::Conflict("d").cf(), Some("d"));
    assert_eq!(Error::Engine("disk full".to_string()).message(), "disk full");
    assert_eq!(Error::Parse("expected 8 bytes".to_string()).message(), "expected 8 bytes");
    assert_eq!(Error::Parse("x".to_string()).cf(), None);
    assert!(!Error::Engine("x".to_string()).is_invalid_mode());
}

#[test]
fn context_wraps_the_cause() {
    let cause = Error::InvalidTransactionMode { expected: Mode::ReadWrite, actual: Mode::ReadOnly };
    let in_cf = Error::in_cf(CfOperationError::new("Failed clearing", "datum-foo"), cause);
    assert_eq!(in_cf.message(), "Failed clearing \u{2018}datum-foo\u{2019}");
    assert_eq!(in_cf.cf(), Some("datum-foo"));
    assert!(in_cf.is_invalid_mode());
    let in_step = Error::in_step("Failed unindexing old value", in_cf);
    assert_eq!(in_step.message(), "Failed unindexing old value");
    assert_eq!(in_step.cf(), Some("datum-foo"));
    assert!(in_step.is_invalid_mode());
    let indexing = Error::Indexing {
        key: b"12".to_vec(),
        datum: b"short".to_vec(),
        source: Box::new(Error::Parse("short".to_string())),
    };
    assert_eq!(indexing.message(), "Failed indexing an object");
    assert_eq!(indexing.cf(), None);
    assert!(!indexing.is_invalid_mode());
}

#[test]
fn builder_misuse_in_words() {
    let cases = [
        (
            BuilderError::ReservedCf("__sakuhiki_x"),
            "CFs starting with __sakuhiki are reserved for internal use: __sakuhiki_x",
        ),
        (BuilderError::ConfiguredTwice("d"), "Configured CF d multiple times"),
        (BuilderError::DuplicateCf("d"), "Multiple datum types require the same CF d"),
        (BuilderError::NotConfigured("d"), "All CFs must be configured but d is not"),
        (BuilderError::UnusedConfig("d"), "Unused CF configuration for d"),
        (
            BuilderError::ReuseLastOnMissing("d"),
            "Missing CF d is configured to reuse the last options",
        ),
        (
            BuilderError::OptionSetTwice("global options"),
            "Tried setting global options multiple times",
        ),
    ];
    for (misuse, text) in cases {
        assert_eq!(misuse.message(), text);
        assert_eq!(Error::Builder(misuse).message(), text);
    }
    assert_eq!(BuilderError::DuplicateCf("d").subject(), "d");
    assert_eq!(BuilderError::OptionSetTwice("global options").subject(), "global options");
    assert_eq!(Error::Builder(BuilderError::DuplicateCf("d")).cf(), None);
}
