//! What a storage engine has to offer: named column families, and
//! transactions over a chosen set of them.
//!
//! The engine is the only place where keys and values are read and
//! written. Everything above it is stated over the model that the engine
//! exposes: the committed contents of its column families, and, for an open
//! transaction, the contents that the transaction sees.

use vstd::prelude::*;
use crate::errors::Error;
use crate::mode::Mode;
use crate::range::{prefix_range, spec_prefix_range, KeyRange};
use crate::store::{cf_id, is_scan_of, listing_view, lookup, value_view, Cfs};

verus! {

/// A handle on a column family.
pub trait BackendCf {
    /// The name that the handle was resolved from.
    open spec fn spec_name(&self) -> &'static str {
        arbitrary()
    }

    /// The name of the column family.
    fn name(&self) -> (n: &'static str)
        ensures
            n == self.spec_name(),
    ;
}

/// The identities of the column families that `handles` name.
pub open spec fn handle_ids<C: BackendCf>(handles: Seq<C>) -> Set<Seq<u8>> {
    Set::new(
        |id: Seq<u8>| exists|i: int| 0 <= i < handles.len() && cf_id(#[trigger] handles[i].spec_name()) == id,
    )
}

/// The identities of the column families that the borrowed `handles` name.
pub open spec fn borrowed_handle_ids<C: BackendCf>(handles: Seq<&C>) -> Set<Seq<u8>> {
    Set::new(
        |id: Seq<u8>| exists|i: int| 0 <= i < handles.len() && cf_id(#[trigger] handles[i].spec_name()) == id,
    )
}

/// `handles` name, in order, the column families called `names`.
pub open spec fn handles_name<C: BackendCf>(handles: Seq<C>, names: Seq<&'static str>) -> bool {
    &&& handles.len() == names.len()
    &&& forall|i: int| 0 <= i < handles.len() ==> (#[trigger] handles[i]).spec_name() == names[i]
}

/// Every one of `handles` is in the scope of a transaction over `cfs`.
pub open spec fn handles_in_scope<C: BackendCf>(handles: Seq<C>, cfs: Cfs) -> bool {
    forall|i: int| 0 <= i < handles.len() ==> cfs.contains_key(cf_id((#[trigger] handles[i]).spec_name()))
}

/// An open transaction of a storage engine.
///
/// The transaction sees the column families of its scope as they were when
/// it started, changed by its own writes since.
pub trait Transaction: Sized {
    /// A handle on a column family in the scope of a transaction.
    type Cf: BackendCf;

    /// The mode that the transaction was started in.
    open spec fn mode(&self) -> Mode {
        arbitrary()
    }

    /// The column families in scope, as the transaction sees them now.
    open spec fn cfs(&self) -> Cfs {
        arbitrary()
    }

    /// The column families in scope, as they were when the transaction
    /// started.
    open spec fn snapshot(&self) -> Cfs {
        arbitrary()
    }

    /// The column families that the transaction holds an exclusive lock on.
    open spec fn locks(&self) -> Set<Seq<u8>> {
        arbitrary()
    }

    /// Whether the operations of this engine fail only where their
    /// contracts say that they do. An engine that does not say so makes no
    /// such promise.
    open spec fn reliable() -> bool {
        false
    }

    /// The mode of the transaction.
    fn current_mode(&self) -> (m: Mode)
        ensures
            m == self.mode(),
    ;

    /// Takes the exclusive lock on `cf`, which is held until the
    /// transaction ends. Only a transaction that rebuilds an index may.
    fn take_exclusive_lock(&mut self, cf: &Self::Cf) -> (r: Result<(), Error>)
        requires
            old(self).cfs().contains_key(cf_id(cf.spec_name())),
        ensures
            final(self).mode() == old(self).mode(),
            final(self).snapshot() == old(self).snapshot(),
            final(self).cfs() == old(self).cfs(),
            old(self).mode() != Mode::IndexRebuilding ==> r == Err::<(), Error>(
                Error::InvalidTransactionMode {
                    expected: Mode::IndexRebuilding,
                    actual: old(self).mode(),
                },
            ),
            r is Ok ==> final(self).locks() == old(self).locks().insert(cf_id(cf.spec_name())),
            r is Err ==> final(self).locks() == old(self).locks(),
            Self::reliable() && old(self).mode() == Mode::IndexRebuilding ==> r is Ok,
    ;

    /// The value stored under `key` in `cf`, as the transaction sees it.
    fn get(&self, cf: &Self::Cf, key: &[u8]) -> (r: Result<Option<Vec<u8>>, Error>)
        requires
            self.cfs().contains_key(cf_id(cf.spec_name())),
        ensures
            r matches Ok(v) ==> value_view(v) == lookup(self.cfs()[cf_id(cf.spec_name())], key@),
            Self::reliable() ==> r is Ok,
    ;

    /// The pairs of `cf` whose keys lie in `range`, in ascending order of
    /// their keys.
    fn scan(&self, cf: &Self::Cf, range: &KeyRange<Vec<u8>>) -> (r: Result<
        Vec<(Vec<u8>, Vec<u8>)>,
        Error,
    >)
        requires
            self.cfs().contains_key(cf_id(cf.spec_name())),
        ensures
            r matches Ok(items) ==> is_scan_of(
                listing_view(items@),
                self.cfs()[cf_id(cf.spec_name())],
                range@,
            ),
            Self::reliable() ==> r is Ok,
    ;

    /// The pairs of `cf` that a scan from `prefix` up to its successor
    /// delivers; up to the end where `prefix` has no successor.
    fn scan_prefix(&self, cf: &Self::Cf, prefix: &[u8]) -> (r: Result<
        Vec<(Vec<u8>, Vec<u8>)>,
        Error,
    >)
        requires
            self.cfs().contains_key(cf_id(cf.spec_name())),
        ensures
            r matches Ok(items) ==> is_scan_of(
                listing_view(items@),
                self.cfs()[cf_id(cf.spec_name())],
                spec_prefix_range(prefix@),
            ),
            Self::reliable() ==> r is Ok,
    {
        let range = prefix_range(prefix);
        self.scan(cf, &range)
    }

    /// Stores `value` under `key` in `cf` and returns the value that was
    /// there before.
    fn put(&mut self, cf: &Self::Cf, key: &[u8], value: &[u8]) -> (r: Result<
        Option<Vec<u8>>,
        Error,
    >)
        requires
            old(self).cfs().contains_key(cf_id(cf.spec_name())),
        ensures
            final(self).mode() == old(self).mode(),
            final(self).snapshot() == old(self).snapshot(),
            final(self).locks() == old(self).locks(),
            old(self).mode() == Mode::ReadOnly ==> r == Err::<Option<Vec<u8>>, Error>(
                Error::InvalidTransactionMode {
                    expected: Mode::ReadWrite,
                    actual: Mode::ReadOnly,
                },
            ),
            r matches Ok(previous) ==> {
                &&& value_view(previous) == lookup(old(self).cfs()[cf_id(cf.spec_name())], key@)
                &&& final(self).cfs() == old(self).cfs().insert(
                    cf_id(cf.spec_name()),
                    old(self).cfs()[cf_id(cf.spec_name())].insert(key@, value@),
                )
            },
            r is Err ==> final(self).cfs() == old(self).cfs(),
            Self::reliable() && old(self).mode() != Mode::ReadOnly ==> r is Ok,
    ;

    /// Removes `key` from `cf` and returns the value that was there before.
    fn delete(&mut self, cf: &Self::Cf, key: &[u8]) -> (r: Result<Option<Vec<u8>>, Error>)
        requires
            old(self).cfs().contains_key(cf_id(cf.spec_name())),
        ensures
            final(self).mode() == old(self).mode(),
            final(self).snapshot() == old(self).snapshot(),
            final(self).locks() == old(self).locks(),
            old(self).mode() == Mode::ReadOnly ==> r == Err::<Option<Vec<u8>>, Error>(
                Error::InvalidTransactionMode {
                    expected: Mode::ReadWrite,
                    actual: Mode::ReadOnly,
                },
            ),
            r matches Ok(previous) ==> {
                &&& value_view(previous) == lookup(old(self).cfs()[cf_id(cf.spec_name())], key@)
                &&& final(self).cfs() == old(self).cfs().insert(
                    cf_id(cf.spec_name()),
                    old(self).cfs()[cf_id(cf.spec_name())].remove(key@),
                )
            },
            r is Err ==> final(self).cfs() == old(self).cfs(),
            Self::reliable() && old(self).mode() != Mode::ReadOnly ==> r is Ok,
    ;

    /// Empties `cf`.
    fn clear(&mut self, cf: &Self::Cf) -> (r: Result<(), Error>)
        requires
            old(self).cfs().contains_key(cf_id(cf.spec_name())),
        ensures
            final(self).mode() == old(self).mode(),
            final(self).snapshot() == old(self).snapshot(),
            final(self).locks() == old(self).locks(),
            old(self).mode() == Mode::ReadOnly ==> r == Err::<(), Error>(
                Error::InvalidTransactionMode {
                    expected: Mode::ReadWrite,
                    actual: Mode::ReadOnly,
                },
            ),
            r is Ok ==> final(self).cfs() == old(self).cfs().insert(
                cf_id(cf.spec_name()),
                Map::empty(),
            ),
            r is Err ==> final(self).cfs() == old(self).cfs(),
            Self::reliable() && old(self).mode() != Mode::ReadOnly ==> r is Ok,
    ;
}

/// Whether a column family in the scope of an open transaction that may
/// write has changed in `state` since the transaction started.
pub open spec fn stale<T: Transaction>(state: Cfs, transaction: &T) -> bool {
    &&& transaction.mode() != Mode::ReadOnly
    &&& exists|id: Seq<u8>|
        #![trigger transaction.snapshot().contains_key(id)]
        transaction.snapshot().contains_key(id) && (!state.contains_key(id) || state[id]
            != transaction.snapshot()[id])
}

/// The committed contents once `transaction` has been committed to `state`:
/// the column families in its scope are as the transaction left them.
pub open spec fn committed<T: Transaction>(state: Cfs, transaction: &T) -> Cfs {
    if transaction.mode() == Mode::ReadOnly {
        state
    } else {
        state.union_prefer_right(transaction.cfs())
    }
}

/// A storage engine.
pub trait Backend: Sized + 'static {
    /// A handle on a column family that lives as long as the engine.
    type Cf: BackendCf;

    /// A handle on a column family in the scope of a transaction.
    type TransactionCf: BackendCf;

    /// An open transaction.
    type Transaction: Transaction<Cf = Self::TransactionCf>;

    /// The committed contents of the column families of the engine.
    open spec fn state(&self) -> Cfs {
        arbitrary()
    }

    /// Whether the operations of this engine fail only where their
    /// contracts say that they do. An engine that does not say so makes no
    /// such promise.
    open spec fn reliable() -> bool {
        false
    }

    /// Resolves the column family called `name`. Fails with `NoSuchCf`
    /// where there is none.
    fn cf_handle(&self, name: &'static str) -> (r: Result<Self::Cf, Error>)
        ensures
            r matches Ok(cf) ==> cf.spec_name() == name && self.state().contains_key(cf_id(name)),
            !self.state().contains_key(cf_id(name)) ==> r == Err::<Self::Cf, Error>(
                Error::NoSuchCf(name),
            ),
            Self::reliable() && self.state().contains_key(cf_id(name)) ==> r is Ok,
    ;

    /// Opens a transaction in `mode` over the column families `cfs`, and
    /// resolves each of them, in order, to a handle in the scope of the
    /// transaction.
    fn transaction(&self, mode: Mode, cfs: &[&Self::Cf]) -> (r: Result<
        (Self::Transaction, Vec<Self::TransactionCf>),
        Error,
    >)
        ensures
            r matches Ok((transaction, handles)) ==> {
                &&& transaction.mode() == mode
                &&& transaction.locks() == Set::<Seq<u8>>::empty()
                &&& transaction.snapshot() == self.state().restrict(borrowed_handle_ids(cfs@))
                &&& transaction.cfs() == transaction.snapshot()
                &&& borrowed_handle_ids(cfs@).subset_of(self.state().dom())
                &&& handles@.len() == cfs@.len()
                &&& forall|i: int|
                    0 <= i < cfs@.len() ==> (#[trigger] handles@[i]).spec_name()
                        == cfs@[i].spec_name()
            },
            !borrowed_handle_ids(cfs@).subset_of(self.state().dom()) ==> r is Err,
            Self::reliable() && borrowed_handle_ids(cfs@).subset_of(self.state().dom()) ==> r is Ok,
    ;

    /// Ends `transaction` and makes its writes the committed contents, all
    /// of them or none.
    fn commit(&mut self, transaction: Self::Transaction) -> (r: Result<(), Error>)
        ensures
            r is Err ==> final(self).state() == old(self).state(),
            r is Ok ==> final(self).state().dom() == old(self).state().dom(),
            r is Ok && !stale(old(self).state(), &transaction) ==> final(self).state() == committed(
                old(self).state(),
                &transaction,
            ),
            Self::reliable() && !stale(old(self).state(), &transaction) ==> r is Ok,
    ;
}

} // verus!
