//! What can go wrong, and the context that says where it did.
//!
//! A failure keeps its cause: each layer that passes a failure on may wrap
//! it with the column family or the step it was working on.

use vstd::prelude::*;
use vstd::string::StringExecFns;
use crate::mode::Mode;

verus! {

/// A failed operation on a named column family.
#[derive(Debug, PartialEq, Eq)]
pub struct CfOperationError {
    msg: &'static str,
    cf: &'static str,
}

impl CfOperationError {
    /// What was being done, as passed to `new`.
    pub closed spec fn spec_msg(&self) -> &'static str {
        self.msg
    }

    /// The column family, as passed to `new`.
    pub closed spec fn spec_cf(&self) -> &'static str {
        self.cf
    }

    /// The failure of the operation described by `msg` on the column family `cf`.
    pub closed spec fn new_spec(msg: &'static str, cf: &'static str) -> Self {
        CfOperationError { msg, cf }
    }

    /// What `new_spec` makes holds what it was made from.
    pub broadcast proof fn lemma_new_spec(msg: &'static str, cf: &'static str)
        ensures
            (#[trigger] Self::new_spec(msg, cf)).spec_msg() == msg,
            Self::new_spec(msg, cf).spec_cf() == cf,
    {
    }

    /// The failure of the operation described by `msg` on the column family `cf`.
    pub fn new(msg: &'static str, cf: &'static str) -> (e: Self)
        ensures
            e == Self::new_spec(msg, cf),
            e.spec_msg() == msg,
            e.spec_cf() == cf,
    {
        CfOperationError { msg, cf }
    }

    /// The failure to resolve the handle of the column family `cf`.
    pub fn retrieving_cf(cf: &'static str) -> (e: Self)
        ensures
            e == Self::new_spec("Failed retrieving CF handle for", cf),
            e.spec_msg() == "Failed retrieving CF handle for",
            e.spec_cf() == cf,
    {
        CfOperationError::new("Failed retrieving CF handle for", cf)
    }

    /// The column family that the operation failed on.
    pub fn cf(&self) -> (cf: &'static str)
        ensures
            cf == self.spec_cf(),
    {
        self.cf
    }

    /// What was being done when the operation failed.
    pub fn msg(&self) -> (msg: &'static str)
        ensures
            msg == self.spec_msg(),
    {
        self.msg
    }

    /// The text of `message`.
    pub open spec fn spec_message(&self) -> Seq<char> {
        self.spec_msg()@ + " \u{2018}"@ + self.spec_cf()@ + "\u{2019}"@
    }

    /// The failure in words: what was being done, then the column family in
    /// quotation marks.
    pub fn message(&self) -> (s: String)
        ensures
            s@ == self.spec_message(),
    {
        let mut s = String::from_str(self.msg);
        s.append(" \u{2018}");
        s.append(self.cf);
        s.append("\u{2019}");
        s
    }

}

/// A misuse of the builder of a database. These are mistakes in the program
/// that declares the database, reported before anything is opened.
#[derive(Clone, Copy, Debug, PartialEq, Eq)]
pub enum BuilderError {
    /// The name of a column family starts with the reserved prefix.
    ReservedCf(&'static str),
    /// Options were given twice for one column family.
    ConfiguredTwice(&'static str),
    /// Two declarations need the same column family.
    DuplicateCf(&'static str),
    /// Every column family has to be configured, and this one is not.
    NotConfigured(&'static str),
    /// Options were given for a column family that no declaration needs.
    UnusedConfig(&'static str),
    /// A column family that does not exist yet was told to keep the options
    /// that it had.
    ReuseLastOnMissing(&'static str),
    /// An option of the engine was set twice.
    OptionSetTwice(&'static str),
}

impl BuilderError {
    /// The column family or option that the misuse is about.
    pub open spec fn spec_subject(self) -> &'static str {
        match self {
            BuilderError::ReservedCf(cf) => cf,
            BuilderError::ConfiguredTwice(cf) => cf,
            BuilderError::DuplicateCf(cf) => cf,
            BuilderError::NotConfigured(cf) => cf,
            BuilderError::UnusedConfig(cf) => cf,
            BuilderError::ReuseLastOnMissing(cf) => cf,
            BuilderError::OptionSetTwice(option) => option,
        }
    }

    /// The column family or option that the misuse is about.
    pub fn subject(self) -> (r: &'static str)
        ensures
            r == self.spec_subject(),
    {
        match self {
            BuilderError::ReservedCf(cf) => cf,
            BuilderError::ConfiguredTwice(cf) => cf,
            BuilderError::DuplicateCf(cf) => cf,
            BuilderError::NotConfigured(cf) => cf,
            BuilderError::UnusedConfig(cf) => cf,
            BuilderError::ReuseLastOnMissing(cf) => cf,
            BuilderError::OptionSetTwice(option) => option,
        }
    }

    /// The text of `message`.
    pub open spec fn spec_message(self) -> Seq<char> {
        match self {
            BuilderError::ReservedCf(cf) => "CFs starting with __sakuhiki are reserved for internal use: "@
                + cf@,
            BuilderError::ConfiguredTwice(cf) => "Configured CF "@ + cf@ + " multiple times"@,
            BuilderError::DuplicateCf(cf) => "Multiple datum types require the same CF "@ + cf@,
            BuilderError::NotConfigured(cf) => "All CFs must be configured but "@ + cf@ + " is not"@,
            BuilderError::UnusedConfig(cf) => "Unused CF configuration for "@ + cf@,
            BuilderError::ReuseLastOnMissing(cf) => "Missing CF "@ + cf@
                + " is configured to reuse the last options"@,
            BuilderError::OptionSetTwice(option) => "Tried setting "@ + option@ + " multiple times"@,
        }
    }

    /// The misuse in words.
    pub fn message(self) -> (s: String)
        ensures
            s@ == self.spec_message(),
    {
        match self {
            BuilderError::ReservedCf(cf) => {
                let mut s = String::from_str(
                    "CFs starting with __sakuhiki are reserved for internal use: ",
                );
                s.append(cf);
                s
            },
            BuilderError::ConfiguredTwice(cf) => {
                let mut s = String::from_str("Configured CF ");
                s.append(cf);
                s.append(" multiple times");
                s
            },
            BuilderError::DuplicateCf(cf) => {
                let mut s = String::from_str("Multiple datum types require the same CF ");
                s.append(cf);
                s
            },
            BuilderError::NotConfigured(cf) => {
                let mut s = String::from_str("All CFs must be configured but ");
                s.append(cf);
                s.append(" is not");
                s
            },
            BuilderError::UnusedConfig(cf) => {
                let mut s = String::from_str("Unused CF configuration for ");
                s.append(cf);
                s
            },
            BuilderError::ReuseLastOnMissing(cf) => {
                let mut s = String::from_str("Missing CF ");
                s.append(cf);
                s.append(" is configured to reuse the last options");
                s
            },
            BuilderError::OptionSetTwice(option) => {
                let mut s = String::from_str("Tried setting ");
                s.append(option);
                s.append(" multiple times");
                s
            },
        }
    }
}

/// A failure of the store or of one of its indexes.
#[derive(Debug, PartialEq, Eq)]
pub enum Error {
    /// An operation needs a mode that the transaction is not in.
    InvalidTransactionMode { expected: Mode, actual: Mode },
    /// The named column family does not exist.
    NoSuchCf(&'static str),
    /// The named column family was changed by another transaction while
    /// this one was open.
    Conflict(&'static str),
    /// The storage engine failed; the text is the engine's own.
    Engine(String),
    /// Stored bytes do not parse as the datum they should be; the text is
    /// the parser's own.
    Parse(String),
    /// An operation on a named column family failed.
    Cf { context: CfOperationError, source: Box<Error> },
    /// A step failed; `msg` says which.
    Context { msg: &'static str, source: Box<Error> },
    /// An object could not be indexed while an index was rebuilt.
    Indexing { key: Vec<u8>, datum: Vec<u8>, source: Box<Error> },
    /// The builder of the database was misused.
    Builder(BuilderError),
}

impl Error {
    /// The failure `source`, attributed to the operation and column family
    /// of `context`.
    pub fn in_cf(context: CfOperationError, source: Error) -> (e: Error)
        ensures
            e == (Error::Cf { context, source: Box::new(source) }),
    {
        Error::Cf { context, source: Box::new(source) }
    }

    /// The failure `source`, attributed to the step that `msg` describes.
    pub fn in_step(msg: &'static str, source: Error) -> (e: Error)
        ensures
            e == (Error::Context { msg, source: Box::new(source) }),
    {
        Error::Context { msg, source: Box::new(source) }
    }

    /// The failure at the root of `self`: what is left when every layer of
    /// context is taken off.
    pub open spec fn spec_root(self) -> Error
        decreases self,
    {
        match self {
            Error::Cf { context, source } => source.spec_root(),
            Error::Context { msg, source } => source.spec_root(),
            Error::Indexing { key, datum, source } => source.spec_root(),
            _ => self,
        }
    }

    /// The column family that the outermost layer of `self` names, if any
    /// layer names one.
    pub open spec fn spec_cf(self) -> Option<&'static str>
        decreases self,
    {
        match self {
            Error::NoSuchCf(cf) => Some(cf),
            Error::Conflict(cf) => Some(cf),
            Error::Cf { context, source } => Some(context.spec_cf()),
            Error::Context { msg, source } => source.spec_cf(),
            Error::Indexing { key, datum, source } => source.spec_cf(),
            _ => None,
        }
    }

    /// The column family that the failure is attributed to, if any.
    pub fn cf(&self) -> (r: Option<&'static str>)
        ensures
            r == self.spec_cf(),
        decreases self,
    {
        match self {
            Error::NoSuchCf(cf) => Some(*cf),
            Error::Conflict(cf) => Some(*cf),
            Error::Cf { context, source } => Some(context.cf()),
            Error::Context { msg, source } => source.cf(),
            Error::Indexing { key, datum, source } => source.cf(),
            _ => None,
        }
    }

    /// Whether the failure at the root of `self` is a transaction in the
    /// wrong mode.
    pub fn is_invalid_mode(&self) -> (r: bool)
        ensures
            r == (self.spec_root() is InvalidTransactionMode),
        decreases self,
    {
        match self {
            Error::InvalidTransactionMode { .. } => true,
            Error::Cf { context, source } => source.is_invalid_mode(),
            Error::Context { msg, source } => source.is_invalid_mode(),
            Error::Indexing { key, datum, source } => source.is_invalid_mode(),
            _ => false,
        }
    }

    /// The text of `message`.
    pub open spec fn spec_message(self) -> Seq<char> {
        match self {
            Error::InvalidTransactionMode { expected, actual } => {
                "Invalid transaction mode: expected "@ + expected.spec_name() + ", got "@
                    + actual.spec_name()
            },
            Error::NoSuchCf(cf) => "CF "@ + cf@ + " does not exist"@,
            Error::Conflict(cf) => "CF "@ + cf@ + " was changed by another transaction"@,
            Error::Engine(text) => text@,
            Error::Parse(text) => text@,
            Error::Cf { context, source } => context.spec_message(),
            Error::Context { msg, source } => msg@,
            Error::Indexing { key, datum, source } => "Failed indexing an object"@,
            Error::Builder(misuse) => misuse.spec_message(),
        }
    }

    /// The outermost layer of the failure in words.
    pub fn message(&self) -> (s: String)
        ensures
            s@ == self.spec_message(),
    {
        match self {
            Error::InvalidTransactionMode { expected, actual } => {
                let mut s = String::from_str("Invalid transaction mode: expected ");
                s.append(expected.name());
                s.append(", got ");
                s.append(actual.name());
                s
            },
            Error::NoSuchCf(cf) => {
                let mut s = String::from_str("CF ");
                s.append(cf);
                s.append(" does not exist");
                s
            },
            Error::Conflict(cf) => {
                let mut s = String::from_str("CF ");
                s.append(cf);
                s.append(" was changed by another transaction");
                s
            },
            Error::Engine(text) => text.clone(),
            Error::Parse(text) => text.clone(),
            Error::Cf { context, source } => context.message(),
            Error::Context { msg, source } => String::from_str(msg),
            Error::Indexing { key, datum, source } => String::from_str("Failed indexing an object"),
            Error::Builder(misuse) => misuse.message(),
        }
    }
}

} // verus!
