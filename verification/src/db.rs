//! The database: a storage engine, and transactions on it that keep the
//! indexes of every object up to date.

use vstd::prelude::*;
use crate::backend::{
    borrowed_handle_ids, committed, handle_ids, handles_in_scope, handles_name, stale, Backend,
    BackendCf,
};
use crate::backend::Transaction as BackendTransaction;
use crate::datum::{Datum, IndexedDatum};
use crate::errors::{CfOperationError, Error};
use crate::handles::{
    borrowed_names_of, group_names, lemma_group_names_at, lemma_linear_names_at,
    lemma_linear_names_within, linear_names, linearize, name_ids, names_of, regroup, Cf,
    TransactionCf,
};
use crate::names::names_contain;
use crate::indexer::{cfs_hold, only_changed, Indexer};
use crate::mode::Mode;
use crate::range::KeyRange;
use crate::store::{cf_id, is_scan_of, listing_view, lookup, value_view, CfData, Cfs};

verus! {

/// Every index of `D` can index an object stored as `value`.
pub open spec fn all_accept<B: Backend, D: IndexedDatum<B>>(value: Seq<u8>) -> bool {
    forall|i: int| 0 <= i < D::INDEXES@.len() ==> (#[trigger] D::INDEXES@[i]).accepts(value)
}

/// Every column family of the objects of `D` and of its indexes exists in
/// `state`.
pub open spec fn all_exist<B: Backend, D: IndexedDatum<B>>(state: Cfs) -> bool {
    &&& state.contains_key(cf_id(D::CF))
    &&& forall|i: int, j: int|
        0 <= i < D::INDEXES@.len() && 0 <= j < D::INDEXES@[i].spec_cfs().len()
            ==> state.contains_key(cf_id(#[trigger] D::INDEXES@[i].spec_cfs()[j]))
}

/// The failure `e` is that of resolving the handle of the column family
/// `name`; where `state` has no such column family, that is its cause.
pub open spec fn retrieving(e: Error, name: &'static str, state: Cfs) -> bool {
    e matches Error::Cf { context, source } && context == CfOperationError::new_spec(
        "Failed retrieving CF handle for",
        name,
    ) && (!state.contains_key(cf_id(name)) ==> *source == Error::NoSuchCf(name))
}

/// Every column family of the objects of `D` and of its indexes that is
/// resolved before the one at `j` of the index at `i` exists in `state`.
pub open spec fn exist_before<B: Backend, D: IndexedDatum<B>>(state: Cfs, i: int, j: int) -> bool {
    &&& state.contains_key(cf_id(D::CF))
    &&& forall|p: int, q: int|
        0 <= p < i && 0 <= q < D::INDEXES@[p].spec_cfs().len() ==> state.contains_key(
            cf_id(#[trigger] D::INDEXES@[p].spec_cfs()[q]),
        )
    &&& forall|q: int|
        0 <= q < j ==> state.contains_key(cf_id(#[trigger] D::INDEXES@[i].spec_cfs()[q]))
}

/// The failure to resolve the handles of the objects of `D` and of its
/// indexes: it names the first column family, in the order in which they
/// are resolved, whose handle could not be resolved.
pub open spec fn is_retrieving_failure<B: Backend, D: IndexedDatum<B>>(state: Cfs, e: Error) -> bool {
    ||| retrieving(e, D::CF, state)
    ||| exists|i: int, j: int|
        0 <= i < D::INDEXES@.len() && 0 <= j < D::INDEXES@[i].spec_cfs().len() && exist_before::<
            B,
            D,
        >(state, i, j) && #[trigger] retrieving(e, D::INDEXES@[i].spec_cfs()[j], state)
}

/// The first `j` of `names` exist in `state`.
pub open spec fn first_exist(state: Cfs, names: Seq<&'static str>, j: int) -> bool {
    forall|q: int| 0 <= q < j ==> state.contains_key(cf_id(#[trigger] names[q]))
}

/// `after` is `before` with an index rebuilt: the column families `names`
/// of the index hold `image`, and nothing else has changed.
pub open spec fn rebuilt(
    names: Seq<&'static str>,
    image: Seq<CfData>,
    before: Cfs,
    after: Cfs,
) -> bool {
    &&& after.dom() == before.dom()
    &&& image.len() == names.len()
    &&& forall|j: int| 0 <= j < names.len() ==> after[cf_id(#[trigger] names[j])] == image[j]
    &&& forall|id: Seq<u8>|
        before.contains_key(id) && !names_contain(names, id) ==> #[trigger] after[id] == before[id]
}

/// Rebuilding an index twice in a row, with no write in between, gives
/// what rebuilding it once gives.
pub proof fn lemma_rebuild_idempotent<B: Backend, I: ?Sized + Indexer<B>>(
    index: &I,
    datum_cf: &'static str,
    start: Cfs,
    once: Cfs,
    twice: Cfs,
)
    requires
        start.contains_key(cf_id(datum_cf)),
        !names_contain(index.spec_cfs(), cf_id(datum_cf)),
        rebuilt(index.spec_cfs(), index.image(start[cf_id(datum_cf)]), start, once),
        rebuilt(index.spec_cfs(), index.image(once[cf_id(datum_cf)]), once, twice),
    ensures
        twice == once,
{
    let did = cf_id(datum_cf);
    assert(once[did] == start[did]);
    assert forall|id: Seq<u8>| once.contains_key(id) implies #[trigger] twice[id] == once[id] by {
        if names_contain(index.spec_cfs(), id) {
            let j = choose|j: int|
                0 <= j < index.spec_cfs().len() && cf_id(#[trigger] index.spec_cfs()[j]) == id;
            assert(twice[cf_id(index.spec_cfs()[j])] == index.image(once[did])[j]);
            assert(once[cf_id(index.spec_cfs()[j])] == index.image(start[did])[j]);
        }
    }
    assert(twice =~= once);
}

/// What opening a transaction in `mode` over the column families of the
/// records `cfs` gives, where the committed contents are `state`: a
/// transaction that sees those column families as they are, and for each
/// record, in order, the record of its handles in the scope of the
/// transaction.
pub open spec fn opens<B: Backend>(
    state: Cfs,
    mode: Mode,
    cfs: Seq<&Cf<B>>,
    transaction: Transaction<B>,
    records: Seq<TransactionCf<B>>,
) -> bool {
    &&& transaction.mode() == mode
    &&& transaction.locks() == Set::<Seq<u8>>::empty()
    &&& transaction.snapshot() == state.restrict(name_ids(linear_names(cfs)))
    &&& transaction.cfs() == transaction.snapshot()
    &&& records.len() == cfs.len()
    &&& forall|i: int|
        0 <= i < cfs.len() ==> (#[trigger] records[i]).mirrors(cfs[i]) && records[i].in_scope(
            transaction.cfs(),
        )
}

/// Where the failure `e` of a transaction on `db` came from: the
/// transaction could not be opened and `e` is why; or `actions` failed with
/// `e`; or `actions` succeeded and what they wrote could not be committed.
pub open spec fn came_from<B: Backend, F, R>(
    db: &Db<B>,
    mode: Mode,
    cfs: &[&Cf<B>],
    actions: F,
    e: Error,
) -> bool where F: FnOnce(Transaction<B>, Vec<TransactionCf<B>>) -> (Transaction<B>, Result<R, Error>) {
    ||| call_ensures(
        Db::<B>::begin,
        (db, mode, cfs),
        Err::<(Transaction<B>, Vec<TransactionCf<B>>), Error>(e),
    )
    ||| exists|opened: Transaction<B>, records: Vec<TransactionCf<B>>, ended: Transaction<B>|
        #![trigger call_ensures(actions, (opened, records), (ended, Err::<R, Error>(e)))]
        opens(db.state(), mode, cfs@, opened, records@) && call_ensures(
            actions,
            (opened, records),
            (ended, Err::<R, Error>(e)),
        )
    ||| exists|
        opened: Transaction<B>,
        records: Vec<TransactionCf<B>>,
        ended: Transaction<B>,
        value: R,
    |
        #![trigger call_ensures(actions, (opened, records), (ended, Ok::<R, Error>(value)))]
        opens(db.state(), mode, cfs@, opened, records@) && call_ensures(
            actions,
            (opened, records),
            (ended, Ok::<R, Error>(value)),
        )
}

/// A database: a storage engine whose indexes are kept up to date.
pub struct Db<B> {
    backend: B,
}

impl<B: Backend> Db<B> {
    /// The storage engine.
    pub closed spec fn backend(&self) -> B {
        self.backend
    }

    /// The committed contents of the column families.
    pub open spec fn state(&self) -> Cfs {
        self.backend().state()
    }

    /// The database on the storage engine `backend`.
    pub fn new(backend: B) -> (db: Db<B>)
        ensures
            db.backend() == backend,
    {
        Db { backend }
    }

    /// The storage engine.
    pub fn as_backend(&self) -> (backend: &B)
        ensures
            *backend == self.backend(),
    {
        &self.backend
    }

    /// Gives the storage engine back.
    pub fn into_backend(self) -> (backend: B)
        ensures
            backend == self.backend(),
    {
        self.backend
    }

    /// Resolves the column families of the objects of `D` and of its
    /// indexes.
    pub fn cf_handle<D: IndexedDatum<B>>(&self) -> (r: Result<Cf<B>, Error>)
        ensures
            r matches Ok(cf) ==> cf.describes::<D>() && cf.exists_in(self.state())
                && all_exist::<B, D>(self.state()),
            r matches Err(e) ==> is_retrieving_failure::<B, D>(self.state(), e),
            !self.state().contains_key(cf_id(D::CF)) ==> r == Err::<Cf<B>, Error>(
                primary_failure("Failed retrieving CF handle for", D::CF, Error::NoSuchCf(D::CF)),
            ),
            B::reliable() ==> forall|i: int, j: int|
                0 <= i < D::INDEXES@.len() && 0 <= j < D::INDEXES@[i].spec_cfs().len()
                    && exist_before::<B, D>(self.state(), i, j) && !self.state().contains_key(
                    cf_id(#[trigger] D::INDEXES@[i].spec_cfs()[j]),
                ) ==> r == Err::<Cf<B>, Error>(
                    primary_failure(
                        "Failed retrieving CF handle for",
                        D::INDEXES@[i].spec_cfs()[j],
                        Error::NoSuchCf(D::INDEXES@[i].spec_cfs()[j]),
                    ),
                ),
            !all_exist::<B, D>(self.state()) ==> r is Err,
            B::reliable() && all_exist::<B, D>(self.state()) ==> r is Ok,
    {
        let datum_cf = match self.backend.cf_handle(D::CF) {
            Ok(cf) => cf,
            Err(e) => {
                return Err(Error::in_cf(CfOperationError::retrieving_cf(D::CF), e));
            },
        };
        let indexes = D::INDEXES;
        let mut indexes_cfs: Vec<Vec<B::Cf>> = Vec::new();
        let mut i: usize = 0;
        while i < indexes.len()
            invariant
                i <= indexes@.len(),
                indexes == D::INDEXES,
                self.state().contains_key(cf_id(D::CF)),
                indexes_cfs@.len() == i,
                forall|p: int|
                    0 <= p < i ==> handles_name((#[trigger] indexes_cfs@[p])@, indexes@[p].spec_cfs()),
                forall|p: int, q: int|
                    0 <= p < i && 0 <= q < indexes@[p].spec_cfs().len()
                        ==> self.state().contains_key(cf_id(#[trigger] indexes@[p].spec_cfs()[q])),
            decreases indexes@.len() - i,
        {
            let names = indexes[i].cfs();
            let mut handles: Vec<B::Cf> = Vec::new();
            let mut j: usize = 0;
            while j < names.len()
                invariant
                    j <= names@.len(),
                    i < indexes@.len(),
                    indexes == D::INDEXES,
                    self.state().contains_key(cf_id(D::CF)),
                    names@ == indexes@[i as int].spec_cfs(),
                    forall|p: int, q: int|
                        0 <= p < i && 0 <= q < indexes@[p].spec_cfs().len()
                            ==> self.state().contains_key(
                            cf_id(#[trigger] indexes@[p].spec_cfs()[q]),
                        ),
                    handles@.len() == j,
                    forall|q: int| 0 <= q < j ==> (#[trigger] handles@[q]).spec_name() == names@[q],
                    forall|q: int| 0 <= q < j ==> self.state().contains_key(cf_id(#[trigger] names@[q])),
                decreases names@.len() - j,
            {
                let name = names[j];
                match self.backend.cf_handle(name) {
                    Ok(cf) => {
                        handles.push(cf);
                    },
                    Err(e) => {
                        let failure = Error::in_cf(CfOperationError::retrieving_cf(name), e);
                        proof {
                            if B::reliable() {
                                assert(!self.state().contains_key(
                                    cf_id(D::INDEXES@[i as int].spec_cfs()[j as int]),
                                ));
                            }
                            assert(exist_before::<B, D>(self.state(), i as int, j as int));
                            assert(retrieving(
                                failure,
                                D::INDEXES@[i as int].spec_cfs()[j as int],
                                self.state(),
                            ));
                        }
                        return Err(failure);
                    },
                }
                j += 1;
            }
            indexes_cfs.push(handles);
            i += 1;
        }
        let cf = Cf::new(datum_cf, indexes_cfs);
        proof {
            assert forall|p: int| 0 <= p < D::INDEXES@.len() implies handles_name(
                #[trigger] cf.index_handles()[p],
                D::INDEXES@[p].spec_cfs(),
            ) && handles_in_scope(cf.index_handles()[p], self.state()) by {
                let group: Seq<B::Cf> = cf.index_handles()[p];
                assert(group == indexes_cfs@[p]@);
                assert forall|q: int| 0 <= q < group.len() implies self.state().contains_key(
                    cf_id((#[trigger] group[q]).spec_name()),
                ) by {
                    assert(self.state().contains_key(cf_id(D::INDEXES@[p].spec_cfs()[q])));
                }
            }
        }
        Ok(cf)
    }

    /// Opens a transaction in `mode` over the column families of the
    /// records `cfs`, and gives for each record, in order, the record of
    /// its handles in the scope of the transaction. The transaction ends
    /// with `commit` or `finish`, or by being dropped.
    pub fn begin(&self, mode: Mode, cfs: &[&Cf<B>]) -> (r: Result<
        (Transaction<B>, Vec<TransactionCf<B>>),
        Error,
    >)
        ensures
            r matches Ok((transaction, records)) ==> opens(
                self.state(),
                mode,
                cfs@,
                transaction,
                records@,
            ) && name_ids(linear_names(cfs@)).subset_of(self.state().dom()),
            !name_ids(linear_names(cfs@)).subset_of(self.state().dom()) ==> r is Err,
            B::reliable() && name_ids(linear_names(cfs@)).subset_of(self.state().dom()) ==> r is Ok,
            B::reliable() && (forall|i: int|
                0 <= i < cfs@.len() ==> (#[trigger] cfs@[i]).exists_in(self.state())) ==> r is Ok,
    {
        let backend_cfs = linearize(cfs);
        proof {
            if forall|i: int| 0 <= i < cfs@.len() ==> (#[trigger] cfs@[i]).exists_in(self.state()) {
                lemma_linear_names_within::<B>(cfs@, self.state());
            }
            assert(borrowed_handle_ids(backend_cfs@) =~= name_ids(linear_names(cfs@))) by {
                let names = linear_names(cfs@);
                assert forall|id: Seq<u8>| borrowed_handle_ids(backend_cfs@).contains(id)
                    <==> name_ids(names).contains(id) by {
                    if borrowed_handle_ids(backend_cfs@).contains(id) {
                        let k = choose|k: int|
                            0 <= k < backend_cfs@.len() && cf_id(
                                #[trigger] backend_cfs@[k].spec_name(),
                            ) == id;
                        assert(borrowed_names_of(backend_cfs@)[k] == backend_cfs@[k].spec_name());
                        assert(cf_id(names[k]) == id);
                    }
                    if name_ids(names).contains(id) {
                        let k = choose|k: int| 0 <= k < names.len() && cf_id(#[trigger] names[k]) == id;
                        assert(borrowed_names_of(backend_cfs@)[k] == backend_cfs@[k].spec_name());
                        assert(cf_id(backend_cfs@[k].spec_name()) == id);
                    }
                }
            }
        }
        match self.backend.transaction(mode, backend_cfs.as_slice()) {
            Err(e) => Err(e),
            Ok((transaction, handles)) => {
                proof {
                    assert(names_of(handles@) =~= linear_names(cfs@)) by {
                        assert forall|k: int| 0 <= k < handles@.len() implies names_of(handles@)[k]
                            == linear_names(cfs@)[k] by {
                            assert(handles@[k].spec_name() == backend_cfs@[k].spec_name());
                            assert(borrowed_names_of(backend_cfs@)[k] == backend_cfs@[k].spec_name());
                        }
                    }
                }
                let records = regroup(cfs, handles);
                let transaction = Transaction { transaction };
                proof {
                    assert(transaction.cfs().dom() =~= name_ids(linear_names(cfs@)));
                    assert forall|i: int| 0 <= i < cfs@.len() implies (
                    #[trigger] records@[i]).in_scope(transaction.cfs()) by {
                        lemma_record_in_scope::<B>(cfs@, i, &records@[i], transaction.cfs());
                    }
                }
                Ok((transaction, records))
            },
        }
    }

    /// Runs `actions` in a transaction in `mode` over the column families
    /// of the records `cfs`: opens the transaction, hands it to `actions`
    /// with the records of its handles, and ends it as `actions` came out.
    /// What `actions` wrote is committed where it succeeded and dropped
    /// where it failed.
    pub fn transaction<F, R>(&mut self, mode: Mode, cfs: &[&Cf<B>], actions: F) -> (r: Result<
        R,
        Error,
    >) where F: FnOnce(Transaction<B>, Vec<TransactionCf<B>>) -> (Transaction<B>, Result<R, Error>)
        requires
            forall|transaction: Transaction<B>, records: Vec<TransactionCf<B>>|
                opens(old(self).state(), mode, cfs@, transaction, records@) ==> call_requires(
                    actions,
                    (transaction, records),
                ),
        ensures
            r is Err ==> final(self).state() == old(self).state(),
            r matches Err(e) ==> came_from::<B, F, R>(old(self), mode, cfs, actions, e),
            r matches Ok(value) ==> exists|
                opened: Transaction<B>,
                records: Vec<TransactionCf<B>>,
                ended: Transaction<B>,
            |
                #![trigger call_ensures(actions, (opened, records), (ended, Ok::<R, Error>(value)))]
                {
                    &&& opens(old(self).state(), mode, cfs@, opened, records@)
                    &&& call_ensures(actions, (opened, records), (ended, Ok::<R, Error>(value)))
                    &&& !stale(old(self).state(), &ended.inner()) ==> final(self).state()
                        == committed(old(self).state(), &ended.inner())
                },
            !name_ids(linear_names(cfs@)).subset_of(old(self).state().dom()) ==> r is Err,
            (forall|
                opened: Transaction<B>,
                records: Vec<TransactionCf<B>>,
                ended: Transaction<B>,
                outcome: Result<R, Error>,
            |
                opens(old(self).state(), mode, cfs@, opened, records@) && #[trigger] call_ensures(
                    actions,
                    (opened, records),
                    (ended, outcome),
                ) ==> outcome is Err) ==> r is Err,
            B::reliable() && name_ids(linear_names(cfs@)).subset_of(old(self).state().dom()) && (
            forall|
                opened: Transaction<B>,
                records: Vec<TransactionCf<B>>,
                ended: Transaction<B>,
                outcome: Result<R, Error>,
            |
                opens(old(self).state(), mode, cfs@, opened, records@) && #[trigger] call_ensures(
                    actions,
                    (opened, records),
                    (ended, outcome),
                ) ==> outcome is Ok && !stale(old(self).state(), &ended.inner())) ==> r is Ok,
    {
        let (opened, records) = match self.begin(mode, cfs) {
            Ok(pair) => pair,
            Err(e) => {
                assert(call_ensures(
                    Db::<B>::begin,
                    (&*self, mode, cfs),
                    Err::<(Transaction<B>, Vec<TransactionCf<B>>), Error>(e),
                ));
                return Err(e);
            },
        };
        let ghost at_start = opened;
        let ghost handed = records;
        assert(opens(old(self).state(), mode, cfs@, opened, records@));
        let (ended, outcome) = actions(opened, records);
        let ghost at_end = ended;
        assert(call_ensures(actions, (at_start, handed), (at_end, outcome)));
        let r = self.finish(ended, outcome);
        proof {
            if r is Ok {
                assert(call_ensures(
                    actions,
                    (at_start, handed),
                    (at_end, Ok::<R, Error>(r->Ok_0)),
                ));
            } else if outcome is Err {
                assert(call_ensures(
                    actions,
                    (at_start, handed),
                    (at_end, Err::<R, Error>(r->Err_0)),
                ));
            } else {
                assert(call_ensures(
                    actions,
                    (at_start, handed),
                    (at_end, Ok::<R, Error>(outcome->Ok_0)),
                ));
            }
        }
        r
    }

    /// Runs `actions` in a transaction that only reads.
    pub fn ro_transaction<F, R>(&mut self, cfs: &[&Cf<B>], actions: F) -> (r: Result<R, Error>) where
        F: FnOnce(Transaction<B>, Vec<TransactionCf<B>>) -> (Transaction<B>, Result<R, Error>),

        requires
            forall|transaction: Transaction<B>, records: Vec<TransactionCf<B>>|
                opens(old(self).state(), Mode::ReadOnly, cfs@, transaction, records@)
                    ==> call_requires(actions, (transaction, records)),
        ensures
            r is Err ==> final(self).state() == old(self).state(),
            r matches Err(e) ==> came_from::<B, F, R>(old(self), Mode::ReadOnly, cfs, actions, e),
            r matches Ok(value) ==> exists|
                opened: Transaction<B>,
                records: Vec<TransactionCf<B>>,
                ended: Transaction<B>,
            |
                #![trigger call_ensures(actions, (opened, records), (ended, Ok::<R, Error>(value)))]
                {
                    &&& opens(old(self).state(), Mode::ReadOnly, cfs@, opened, records@)
                    &&& call_ensures(actions, (opened, records), (ended, Ok::<R, Error>(value)))
                    &&& !stale(old(self).state(), &ended.inner()) ==> final(self).state()
                        == committed(old(self).state(), &ended.inner())
                },
            !name_ids(linear_names(cfs@)).subset_of(old(self).state().dom()) ==> r is Err,
            (forall|
                opened: Transaction<B>,
                records: Vec<TransactionCf<B>>,
                ended: Transaction<B>,
                outcome: Result<R, Error>,
            |
                opens(old(self).state(), Mode::ReadOnly, cfs@, opened, records@)
                    && #[trigger] call_ensures(actions, (opened, records), (ended, outcome))
                    ==> outcome is Err) ==> r is Err,
            B::reliable() && name_ids(linear_names(cfs@)).subset_of(old(self).state().dom()) && (
            forall|
                opened: Transaction<B>,
                records: Vec<TransactionCf<B>>,
                ended: Transaction<B>,
                outcome: Result<R, Error>,
            |
                opens(old(self).state(), Mode::ReadOnly, cfs@, opened, records@)
                    && #[trigger] call_ensures(actions, (opened, records), (ended, outcome))
                    ==> outcome is Ok && !stale(old(self).state(), &ended.inner())) ==> r is Ok,
    {
        self.transaction(Mode::ReadOnly, cfs, actions)
    }

    /// Runs `actions` in a transaction that reads and writes.
    pub fn rw_transaction<F, R>(&mut self, cfs: &[&Cf<B>], actions: F) -> (r: Result<R, Error>) where
        F: FnOnce(Transaction<B>, Vec<TransactionCf<B>>) -> (Transaction<B>, Result<R, Error>),

        requires
            forall|transaction: Transaction<B>, records: Vec<TransactionCf<B>>|
                opens(old(self).state(), Mode::ReadWrite, cfs@, transaction, records@)
                    ==> call_requires(actions, (transaction, records)),
        ensures
            r is Err ==> final(self).state() == old(self).state(),
            r matches Err(e) ==> came_from::<B, F, R>(old(self), Mode::ReadWrite, cfs, actions, e),
            r matches Ok(value) ==> exists|
                opened: Transaction<B>,
                records: Vec<TransactionCf<B>>,
                ended: Transaction<B>,
            |
                #![trigger call_ensures(actions, (opened, records), (ended, Ok::<R, Error>(value)))]
                {
                    &&& opens(old(self).state(), Mode::ReadWrite, cfs@, opened, records@)
                    &&& call_ensures(actions, (opened, records), (ended, Ok::<R, Error>(value)))
                    &&& !stale(old(self).state(), &ended.inner()) ==> final(self).state()
                        == committed(old(self).state(), &ended.inner())
                },
            !name_ids(linear_names(cfs@)).subset_of(old(self).state().dom()) ==> r is Err,
            (forall|
                opened: Transaction<B>,
                records: Vec<TransactionCf<B>>,
                ended: Transaction<B>,
                outcome: Result<R, Error>,
            |
                opens(old(self).state(), Mode::ReadWrite, cfs@, opened, records@)
                    && #[trigger] call_ensures(actions, (opened, records), (ended, outcome))
                    ==> outcome is Err) ==> r is Err,
            B::reliable() && name_ids(linear_names(cfs@)).subset_of(old(self).state().dom()) && (
            forall|
                opened: Transaction<B>,
                records: Vec<TransactionCf<B>>,
                ended: Transaction<B>,
                outcome: Result<R, Error>,
            |
                opens(old(self).state(), Mode::ReadWrite, cfs@, opened, records@)
                    && #[trigger] call_ensures(actions, (opened, records), (ended, outcome))
                    ==> outcome is Ok && !stale(old(self).state(), &ended.inner())) ==> r is Ok,
    {
        self.transaction(Mode::ReadWrite, cfs, actions)
    }

    /// Ends `transaction` as its work came out: commits it where the work
    /// succeeded, and drops it, with all that it wrote, where the work
    /// failed. The failure of the work is passed on.
    pub fn finish<R>(&mut self, transaction: Transaction<B>, outcome: Result<R, Error>) -> (r:
        Result<R, Error>)
        ensures
            outcome is Err ==> r == outcome && final(self).state() == old(self).state(),
            r is Err ==> final(self).state() == old(self).state(),
            r is Ok ==> r == outcome,
            r is Ok && !stale(old(self).state(), &transaction.inner()) ==> final(self).state()
                == committed(old(self).state(), &transaction.inner()),
            outcome is Ok && B::reliable() && !stale(old(self).state(), &transaction.inner())
                ==> r is Ok,
    {
        match outcome {
            Ok(value) => match self.backend.commit(transaction.transaction) {
                Ok(()) => Ok(value),
                Err(e) => Err(e),
            },
            Err(e) => Err(e),
        }
    }

    /// Ends `transaction` and makes its writes the committed contents, all
    /// of them or none.
    pub fn commit(&mut self, transaction: Transaction<B>) -> (r: Result<(), Error>)
        ensures
            r is Err ==> final(self).state() == old(self).state(),
            r is Ok && !stale(old(self).state(), &transaction.inner()) ==> final(self).state()
                == committed(old(self).state(), &transaction.inner()),
            B::reliable() && !stale(old(self).state(), &transaction.inner()) ==> r is Ok,
    {
        self.backend.commit(transaction.transaction)
    }

    /// Rebuilds the index `index` of the objects of `D` from scratch, in a
    /// transaction of its own that holds the exclusive lock on the column
    /// family of the objects.
    pub fn rebuild_index<D: Datum, I: Indexer<B>>(&mut self, index: &I) -> (r: Result<(), Error>)
        requires
            !names_contain(index.spec_cfs(), cf_id(D::CF)),
        ensures
            r is Err ==> final(self).state() == old(self).state(),
            r is Ok ==> rebuilt(
                index.spec_cfs(),
                index.image(old(self).state()[cf_id(D::CF)]),
                old(self).state(),
                final(self).state(),
            ),
            r is Ok ==> old(self).state().contains_key(cf_id(D::CF)),
            r is Ok ==> name_ids(index.spec_cfs()).subset_of(old(self).state().dom()),
            forall|j: int|
                0 <= j < index.spec_cfs().len() && first_exist(
                    old(self).state(),
                    index.spec_cfs(),
                    j,
                ) && !old(self).state().contains_key(cf_id(#[trigger] index.spec_cfs()[j])) ==> {
                    &&& r matches Err(e)
                    &&& exists|q: int|
                        0 <= q <= j && #[trigger] retrieving(
                            e,
                            index.spec_cfs()[q],
                            old(self).state(),
                        )
                    &&& B::reliable() ==> r == Err::<(), Error>(
                        primary_failure(
                            "Failed retrieving CF handle for",
                            index.spec_cfs()[j],
                            Error::NoSuchCf(index.spec_cfs()[j]),
                        ),
                    )
                },
            name_ids(index.spec_cfs()).subset_of(old(self).state().dom()) && !old(
                self,
            ).state().contains_key(cf_id(D::CF)) ==> {
                &&& r matches Err(e)
                &&& retrieving(e, D::CF, old(self).state()) || exists|q: int|
                    0 <= q < index.spec_cfs().len() && #[trigger] retrieving(
                        e,
                        index.spec_cfs()[q],
                        old(self).state(),
                    )
                &&& B::reliable() ==> r == Err::<(), Error>(
                    primary_failure(
                        "Failed retrieving CF handle for",
                        D::CF,
                        Error::NoSuchCf(D::CF),
                    ),
                )
            },
            B::reliable() && B::Transaction::reliable() && old(self).state().contains_key(
                cf_id(D::CF),
            ) && name_ids(index.spec_cfs()).subset_of(old(self).state().dom()) && (forall|
                k: Seq<u8>,
            |
                old(self).state()[cf_id(D::CF)].contains_key(k) ==> index.accepts(
                    #[trigger] old(self).state()[cf_id(D::CF)][k],
                )) ==> r is Ok,
    {
        rebuild_in_transaction::<B, I>(&mut self.backend, index, D::CF)
    }
}

/// Rebuilds `index` from the column family `datum_name` of the storage engine
/// `backend`: opens a transaction that rebuilds indexes over the column
/// families of the index and `datum_name`, takes the exclusive lock on
/// `datum_name`, rebuilds, and commits.
pub fn rebuild_in_transaction<B: Backend, I: ?Sized + Indexer<B>>(
    backend: &mut B,
    index: &I,
    datum_name: &'static str,
) -> (r: Result<(), Error>)
    requires
        !names_contain(index.spec_cfs(), cf_id(datum_name)),
    ensures
        r is Err ==> final(backend).state() == old(backend).state(),
        r is Ok ==> rebuilt(
            index.spec_cfs(),
            index.image(old(backend).state()[cf_id(datum_name)]),
            old(backend).state(),
            final(backend).state(),
        ),
        r is Ok ==> old(backend).state().contains_key(cf_id(datum_name)),
        r is Ok ==> name_ids(index.spec_cfs()).subset_of(old(backend).state().dom()),
        forall|j: int|
            0 <= j < index.spec_cfs().len() && first_exist(old(backend).state(), index.spec_cfs(), j)
                && !old(backend).state().contains_key(cf_id(#[trigger] index.spec_cfs()[j])) ==> {
                &&& r matches Err(e)
                &&& exists|q: int|
                    0 <= q <= j && #[trigger] retrieving(
                        e,
                        index.spec_cfs()[q],
                        old(backend).state(),
                    )
                &&& B::reliable() ==> r == Err::<(), Error>(
                    primary_failure(
                        "Failed retrieving CF handle for",
                        index.spec_cfs()[j],
                        Error::NoSuchCf(index.spec_cfs()[j]),
                    ),
                )
            },
        name_ids(index.spec_cfs()).subset_of(old(backend).state().dom())
            && !old(backend).state().contains_key(cf_id(datum_name)) ==> {
            &&& r matches Err(e)
            &&& retrieving(e, datum_name, old(backend).state()) || exists|q: int|
                0 <= q < index.spec_cfs().len() && #[trigger] retrieving(
                    e,
                    index.spec_cfs()[q],
                    old(backend).state(),
                )
            &&& B::reliable() ==> r == Err::<(), Error>(
                primary_failure(
                    "Failed retrieving CF handle for",
                    datum_name,
                    Error::NoSuchCf(datum_name),
                ),
            )
        },
        B::reliable() && B::Transaction::reliable() && old(backend).state().contains_key(
            cf_id(datum_name),
        ) && name_ids(index.spec_cfs()).subset_of(old(backend).state().dom()) && (forall|
            k: Seq<u8>,
        |
            old(backend).state()[cf_id(datum_name)].contains_key(k) ==> index.accepts(
                #[trigger] old(backend).state()[cf_id(datum_name)][k],
            )) ==> r is Ok,
{
    let names = index.cfs();
    let mut all_cfs: Vec<B::Cf> = Vec::new();
    let mut j: usize = 0;
    while j < names.len()
        invariant
            j <= names@.len(),
            names@ == index.spec_cfs(),
            *backend == *old(backend),
            all_cfs@.len() == j,
            forall|q: int| 0 <= q < j ==> (#[trigger] all_cfs@[q]).spec_name() == names@[q],
            forall|q: int| 0 <= q < j ==> backend.state().contains_key(cf_id(#[trigger] names@[q])),
        decreases names@.len() - j,
    {
        let name = names[j];
        match backend.cf_handle(name) {
            Ok(cf) => {
                all_cfs.push(cf);
            },
            Err(e) => {
                let failure = Error::in_cf(CfOperationError::retrieving_cf(name), e);
                proof {
                    let state = backend.state();
                    assert(name_ids(index.spec_cfs()).contains(cf_id(names@[j as int])));
                    assert(retrieving(failure, index.spec_cfs()[j as int], state));
                    assert forall|first: int|
                        0 <= first < index.spec_cfs().len() && first_exist(
                            state,
                            index.spec_cfs(),
                            first,
                        ) && !state.contains_key(
                            cf_id(#[trigger] index.spec_cfs()[first]),
                        ) implies j <= first && (B::reliable() ==> j == first) by {
                        if first < j {
                            assert(state.contains_key(cf_id(names@[first])));
                        }
                        if B::reliable() && j < first {
                            assert(state.contains_key(cf_id(index.spec_cfs()[j as int])));
                        }
                    }
                }
                return Err(failure);
            },
        }
        j += 1;
    }
    match backend.cf_handle(datum_name) {
        Ok(cf) => {
            all_cfs.push(cf);
        },
        Err(e) => {
            let failure = Error::in_cf(CfOperationError::retrieving_cf(datum_name), e);
            proof {
                assert(retrieving(failure, datum_name, backend.state()));
            }
            return Err(failure);
        },
    }
    let mut refs: Vec<&B::Cf> = Vec::new();
    let mut q: usize = 0;
    while q < all_cfs.len()
        invariant
            q <= all_cfs@.len(),
            refs@.len() == q,
            forall|p: int| 0 <= p < q ==> *(#[trigger] refs@[p]) == all_cfs@[p],
        decreases all_cfs@.len() - q,
    {
        refs.push(&all_cfs[q]);
        q += 1;
    }
    let ghost state = backend.state();
    let ghost did = cf_id(datum_name);
    let ghost n = names@.len() as int;
    proof {
        assert(refs@[n].spec_name() == datum_name);
        assert forall|id: Seq<u8>| borrowed_handle_ids(refs@).contains(id) implies state.dom().contains(
            id,
        ) by {
            let p = choose|p: int| 0 <= p < refs@.len() && cf_id(#[trigger] refs@[p].spec_name()) == id;
            if p < n {
                assert(all_cfs@[p].spec_name() == names@[p]);
            }
        }
    }
    let opened = backend.transaction(Mode::IndexRebuilding, refs.as_slice());
    let (mut transaction, mut index_cfs) = match opened {
        Ok(pair) => pair,
        Err(e) => {
            return Err(Error::in_step("Failed running index rebuilding transaction", e));
        },
    };
    let ghost handles = index_cfs@;
    let datum_cf = index_cfs.pop().unwrap();
    proof {
        assert(index_cfs@ =~= handles.take(n));
        assert(datum_cf == handles[n]);
        assert(datum_cf.spec_name() == datum_name);
        assert(borrowed_handle_ids(refs@).contains(cf_id(refs@[n].spec_name())));
        assert forall|p: int| 0 <= p < n implies (#[trigger] index_cfs@[p]).spec_name()
            == names@[p] by {
            assert(handles[p].spec_name() == refs@[p].spec_name());
        }
        assert(handles_in_scope(index_cfs@, transaction.cfs())) by {
            assert forall|p: int| 0 <= p < n implies transaction.cfs().contains_key(
                cf_id((#[trigger] index_cfs@[p]).spec_name()),
            ) by {
                assert(borrowed_handle_ids(refs@).contains(cf_id(refs@[p].spec_name())));
            }
        }
        assert(!handle_ids(index_cfs@).contains(did)) by {
            if handle_ids(index_cfs@).contains(did) {
                let p = choose|p: int|
                    0 <= p < index_cfs@.len() && cf_id(#[trigger] index_cfs@[p].spec_name()) == did;
                assert(cf_id(index.spec_cfs()[p]) == did);
            }
        }
        assert(!stale(state, &transaction));
    }
    let ghost opened_cfs = transaction.cfs();
    match transaction.take_exclusive_lock(&datum_cf) {
        Ok(()) => {},
        Err(e) => {
            return Err(e);
        },
    }
    match index.rebuild(&mut transaction, index_cfs.as_slice(), &datum_cf) {
        Ok(()) => {},
        Err(e) => {
            proof {
                assert(opened_cfs[did] == state[did]);
            }
            return Err(e);
        },
    }
    proof {
        assert(!stale(state, &transaction));
        let target = committed(state, &transaction);
        let tcfs = transaction.cfs();
        assert(tcfs.dom() =~= opened_cfs.dom());
        assert(target.dom() =~= state.dom());
        assert(opened_cfs[did] == state[did]);
        assert forall|p: int| 0 <= p < index.spec_cfs().len() implies target[cf_id(
            #[trigger] index.spec_cfs()[p],
        )] == index.image(state[did])[p] by {
            assert(index_cfs@[p].spec_name() == index.spec_cfs()[p]);
            assert(tcfs.contains_key(cf_id(index_cfs@[p].spec_name())));
        }
        assert forall|id: Seq<u8>|
            state.contains_key(id) && !names_contain(index.spec_cfs(), id) implies #[trigger] target[id]
            == state[id] by {
            if tcfs.contains_key(id) {
                assert(opened_cfs.contains_key(id));
                if handle_ids(index_cfs@).contains(id) {
                    let p = choose|p: int|
                        0 <= p < index_cfs@.len() && cf_id(#[trigger] index_cfs@[p].spec_name())
                            == id;
                    assert(cf_id(index.spec_cfs()[p]) == id);
                }
                assert(tcfs[id] == opened_cfs[id]);
            }
        }
        assert(rebuilt(index.spec_cfs(), index.image(state[did]), state, target));
    }
    backend.commit(transaction)
}

/// The handles of a record that mirrors the record at `i` of `cfs` are in
/// the scope of a transaction over all the column families of `cfs`.
proof fn lemma_record_in_scope<B: Backend>(
    cfs: Seq<&Cf<B>>,
    i: int,
    record: &TransactionCf<B>,
    scope: Cfs,
)
    requires
        0 <= i < cfs.len(),
        record.mirrors(cfs[i]),
        scope.dom() == name_ids(linear_names(cfs)),
    ensures
        record.in_scope(scope),
{
    let names = linear_names(cfs);
    let start = linear_names(cfs.take(i)).len() as int;
    let groups = cfs[i].index_handles();
    lemma_linear_names_at(cfs, i, 0);
    assert(cf_id(names[start]) == record.datum_id());
    assert(name_ids(names).contains(record.datum_id()));
    assert forall|j: int| 0 <= j < record.index_handles().len() implies handles_in_scope(
        #[trigger] record.index_handles()[j],
        scope,
    ) by {
        let mine = record.index_handles()[j];
        assert(names_of(mine) == names_of(groups[j]));
        assert forall|k: int| 0 <= k < mine.len() implies scope.contains_key(
            cf_id((#[trigger] mine[k]).spec_name()),
        ) by {
            assert(names_of(mine)[k] == mine[k].spec_name());
            assert(names_of(groups[j])[k] == groups[j][k].spec_name());
            lemma_group_names_at(groups, j, k);
            let g = group_names(groups.take(j)).len() as int;
            lemma_linear_names_at(cfs, i, 1 + g + k);
            assert(cfs[i].names()[1 + g + k] == group_names(groups)[g + k]);
            assert(cf_id(names[start + 1 + g + k]) == cf_id(mine[k].spec_name()));
            assert(name_ids(names).contains(cf_id(mine[k].spec_name())));
        }
    }
}

/// The failure of a write whose first step, on the column family `cf` of the
/// objects, failed with `source`.
pub open spec fn primary_failure(msg: &'static str, cf: &'static str, source: Error) -> Error {
    Error::Cf { context: CfOperationError::new_spec(msg, cf), source: Box::new(source) }
}

/// The shape of the failure of a `put`.
pub open spec fn is_put_failure(e: Error, cf: &'static str) -> bool {
    ||| e matches Error::Cf { context, .. } && context == CfOperationError::new_spec(
        "Failed putting value into",
        cf,
    )
    ||| e matches Error::Context { msg, .. } && msg == "Failed unindexing old value"
    ||| e matches Error::Context { msg, .. } && msg == "Failed indexing new value"
}

/// The shape of the failure of a `delete`.
pub open spec fn is_delete_failure(e: Error, cf: &'static str) -> bool {
    ||| e matches Error::Cf { context, .. } && context == CfOperationError::new_spec(
        "Failed deleting from",
        cf,
    )
    ||| e matches Error::Context { msg, .. } && msg == "Failed unindexing old value"
}

/// An open transaction on a database.
#[verifier::reject_recursive_types(B)]
pub struct Transaction<B: Backend> {
    transaction: B::Transaction,
}

impl<B: Backend> Transaction<B> {
    /// The transaction of the storage engine that does the work.
    pub closed spec fn inner(&self) -> B::Transaction {
        self.transaction
    }

    /// The mode that the transaction was started in.
    pub open spec fn mode(&self) -> Mode {
        self.inner().mode()
    }

    /// The column families in scope, as the transaction sees them now.
    pub open spec fn cfs(&self) -> Cfs {
        self.inner().cfs()
    }

    /// The column families in scope, as they were when the transaction
    /// started.
    pub open spec fn snapshot(&self) -> Cfs {
        self.inner().snapshot()
    }

    /// The column families that the transaction holds an exclusive lock on.
    pub open spec fn locks(&self) -> Set<Seq<u8>> {
        self.inner().locks()
    }

    /// The mode of the transaction.
    pub fn current_mode(&self) -> (m: Mode)
        ensures
            m == self.mode(),
    {
        self.transaction.current_mode()
    }

    /// The transaction of the storage engine, for reading.
    pub fn as_backend(&self) -> (transaction: &B::Transaction)
        ensures
            *transaction == self.inner(),
    {
        &self.transaction
    }

    /// The stored bytes of the object under `key`, as the transaction sees
    /// them.
    pub fn get(&self, cf: &TransactionCf<B>, key: &[u8]) -> (r: Result<Option<Vec<u8>>, Error>)
        requires
            self.cfs().contains_key(cf.datum_id()),
        ensures
            r matches Ok(v) ==> value_view(v) == lookup(self.cfs()[cf.datum_id()], key@),
            B::Transaction::reliable() ==> r is Ok,
    {
        self.transaction.get(cf.datum_cf(), key)
    }

    /// The objects whose keys lie in `keys`, as stored, in ascending order
    /// of their keys.
    pub fn scan(&self, cf: &TransactionCf<B>, keys: &KeyRange<Vec<u8>>) -> (r: Result<
        Vec<(Vec<u8>, Vec<u8>)>,
        Error,
    >)
        requires
            self.cfs().contains_key(cf.datum_id()),
        ensures
            r matches Ok(items) ==> is_scan_of(listing_view(items@), self.cfs()[cf.datum_id()], keys@),
            B::Transaction::reliable() ==> r is Ok,
    {
        self.transaction.scan(cf.datum_cf(), keys)
    }

    /// Stores `value` under `key` as an object of `D`, brings every index
    /// of `D` up to date, in the order of the indexes, and returns what was
    /// stored under `key` before.
    pub fn put<D: IndexedDatum<B>>(&mut self, cf: &TransactionCf<B>, key: &[u8], value: &[u8]) -> (r:
        Result<Option<Vec<u8>>, Error>)
        requires
            cf.describes::<D>(),
            cf.in_scope(old(self).cfs()),
        ensures
            final(self).mode() == old(self).mode(),
            final(self).snapshot() == old(self).snapshot(),
            final(self).locks() == old(self).locks(),
            final(self).cfs().dom() == old(self).cfs().dom(),
            forall|id: Seq<u8>|
                #![trigger final(self).cfs()[id]]
                old(self).cfs().contains_key(id) && !cf.ids().contains(id) ==> final(self).cfs()[id]
                    == old(self).cfs()[id],
            r matches Ok(previous) ==> value_view(previous) == lookup(
                old(self).cfs()[cf.datum_id()],
                key@,
            ),
            r is Ok && cf.separate() ==> final(self).cfs()[cf.datum_id()] == old(
                self,
            ).cfs()[cf.datum_id()].insert(key@, value@),
            r is Ok && cf.separate() && cf.consistent::<D>(old(self).cfs()) ==> cf.consistent::<D>(
                final(self).cfs(),
            ),
            old(self).mode() == Mode::ReadOnly ==> {
                &&& r == Err::<Option<Vec<u8>>, Error>(
                    primary_failure(
                        "Failed putting value into",
                        cf.datum_handle().spec_name(),
                        Error::InvalidTransactionMode {
                            expected: Mode::ReadWrite,
                            actual: Mode::ReadOnly,
                        },
                    ),
                )
                &&& final(self).cfs() == old(self).cfs()
            },
            r matches Err(e) ==> is_put_failure(e, cf.datum_handle().spec_name()),
            !all_accept::<B, D>(value@) ==> r is Err,
            B::Transaction::reliable() && old(self).mode() != Mode::ReadOnly && all_accept::<B, D>(
                value@,
            ) && (old(self).cfs()[cf.datum_id()].contains_key(key@) ==> all_accept::<B, D>(
                old(self).cfs()[cf.datum_id()][key@],
            )) ==> r is Ok,
    {
        let ghost cfs0 = self.cfs();
        let ghost did = cf.datum_id();
        let ghost data0 = cfs0[did];
        let ghost data1 = data0.insert(key@, value@);
        let ghost hyp = cf.separate() && cf.consistent::<D>(cfs0);
        let previous = match self.transaction.put(cf.datum_cf(), key, value) {
            Ok(previous) => previous,
            Err(e) => {
                return Err(
                    Error::in_cf(
                        CfOperationError::new("Failed putting value into", cf.datum_cf().name()),
                        e,
                    ),
                );
            },
        };
        let indexes = D::INDEXES;
        proof {
            assert(self.cfs().dom() =~= cfs0.dom());
            assert(cf.ids().contains(did));
            if cf.separate() {
                assert forall|i: int| 0 <= i < indexes@.len() implies cfs_hold(
                    self.cfs(),
                    #[trigger] cf.index_handles()[i],
                    indexes@[i].image(data0),
                ) == cfs_hold(cfs0, cf.index_handles()[i], indexes@[i].image(data0)) by {
                    lemma_untouched(cfs0, self.cfs(), cf.index_handles()[i], did);
                }
            }
        }
        let mut i: usize = 0;
        while i < indexes.len()
            invariant
                i <= indexes@.len(),
                indexes == D::INDEXES,
                cf.describes::<D>(),
                cf.in_scope(cfs0),
                cfs0 == old(self).cfs(),
                did == cf.datum_id(),
                data0 == cfs0[did],
                data1 == data0.insert(key@, value@),
                hyp == (cf.separate() && cf.consistent::<D>(cfs0)),
                value_view(previous) == lookup(data0, key@),
                self.mode() == old(self).mode(),
                self.mode() != Mode::ReadOnly,
                self.snapshot() == old(self).snapshot(),
                self.locks() == old(self).locks(),
                self.cfs().dom() == cfs0.dom(),
                forall|id: Seq<u8>|
                    #![trigger self.cfs()[id]]
                    cfs0.contains_key(id) && !cf.ids().contains(id) ==> self.cfs()[id] == cfs0[id],
                cf.separate() ==> self.cfs()[did] == data1,
                hyp ==> forall|p: int|
                    0 <= p < indexes@.len() ==> cfs_hold(
                        self.cfs(),
                        #[trigger] cf.index_handles()[p],
                        indexes@[p].image(if p < i { data1 } else { data0 }),
                    ),
                forall|p: int| 0 <= p < i ==> (#[trigger] indexes@[p]).accepts(value@),
            decreases indexes@.len() - i,
        {
            let indexer = indexes[i];
            let handles = cf.index_cfs(i);
            let ghost cfs_a = self.cfs();
            proof {
                assert(handles@ == cf.index_handles()[i as int]);
                assert(handles_name(cf.index_handles()[i as int], indexer.spec_cfs()));
                lemma_scope_kept(cfs0, cfs_a, handles@);
            }
            let ghost mut without = data0;
            if let Some(old_value) = &previous {
                match indexer.unindex_from_slice(
                    key,
                    old_value.as_slice(),
                    &mut self.transaction,
                    handles,
                ) {
                    Ok(()) => {},
                    Err(e) => {
                        proof {
                            lemma_frame_step::<B>(cf, cfs0, cfs_a, self.cfs(), i as int);
                            assert(self.cfs().dom() =~= cfs0.dom());
                        }
                        return Err(Error::in_step("Failed unindexing old value", e));
                    },
                }
                proof {
                    without = data0.remove(key@);
                    if hyp {
                        assert(cfs_hold(cfs_a, handles@, indexer.image(data0)));
                    }
                }
            }
            let ghost cfs_b = self.cfs();
            proof {
                lemma_scope_kept(cfs_a, cfs_b, handles@);
                lemma_frame_step::<B>(cf, cfs0, cfs_a, cfs_b, i as int);
            }
            match indexer.index_from_slice(key, value, &mut self.transaction, handles) {
                Ok(()) => {},
                Err(e) => {
                    proof {
                        lemma_frame_step::<B>(cf, cfs0, cfs_b, self.cfs(), i as int);
                        assert(self.cfs().dom() =~= cfs0.dom());
                    }
                    return Err(Error::in_step("Failed indexing new value", e));
                },
            }
            proof {
                let cfs_c = self.cfs();
                lemma_frame_step::<B>(cf, cfs0, cfs_b, cfs_c, i as int);
                assert(cfs_c.dom() =~= cfs0.dom());
                if cf.separate() {
                    assert(!handle_ids(cf.index_handles()[i as int]).contains(did));
                }
                if hyp {
                    assert(cfs_hold(cfs_b, handles@, indexer.image(without)));
                    assert(without.insert(key@, value@) =~= data1);
                    assert(cfs_hold(cfs_c, handles@, indexer.image(data1)));
                    assert forall|p: int| 0 <= p < indexes@.len() implies cfs_hold(
                        cfs_c,
                        #[trigger] cf.index_handles()[p],
                        indexes@[p].image(if p < i + 1 { data1 } else { data0 }),
                    ) by {
                        if p != i {
                            assert(handle_ids(cf.index_handles()[p]).disjoint(
                                handle_ids(cf.index_handles()[i as int]),
                            ));
                            lemma_scope_kept(cfs0, cfs_a, cf.index_handles()[p]);
                            lemma_disjoint_untouched(
                                cfs_a,
                                cfs_b,
                                cf.index_handles()[p],
                                cf.index_handles()[i as int],
                            );
                            lemma_scope_kept(cfs_a, cfs_b, cf.index_handles()[p]);
                            lemma_disjoint_untouched(
                                cfs_b,
                                cfs_c,
                                cf.index_handles()[p],
                                cf.index_handles()[i as int],
                            );
                            assert(cfs_hold(
                                cfs_a,
                                cf.index_handles()[p],
                                indexes@[p].image(if p < i { data1 } else { data0 }),
                            ));
                        }
                    }
                }
            }
            i += 1;
        }
        proof {
            if hyp {
                assert forall|p: int| 0 <= p < D::INDEXES@.len() implies cfs_hold(
                    self.cfs(),
                    #[trigger] cf.index_handles()[p],
                    D::INDEXES@[p].image(self.cfs()[cf.datum_id()]),
                ) by {
                    assert(cfs_hold(
                        self.cfs(),
                        cf.index_handles()[p],
                        indexes@[p].image(if p < i { data1 } else { data0 }),
                    ));
                }
            }
        }
        Ok(previous)
    }
}

impl<B: Backend> Transaction<B> {
    /// Removes the object of `D` stored under `key`, takes its rows out of
    /// every index of `D`, in the order of the indexes, and returns what
    /// was stored under `key`.
    pub fn delete<D: IndexedDatum<B>>(&mut self, cf: &TransactionCf<B>, key: &[u8]) -> (r: Result<
        Option<Vec<u8>>,
        Error,
    >)
        requires
            cf.describes::<D>(),
            cf.in_scope(old(self).cfs()),
        ensures
            final(self).mode() == old(self).mode(),
            final(self).snapshot() == old(self).snapshot(),
            final(self).locks() == old(self).locks(),
            final(self).cfs().dom() == old(self).cfs().dom(),
            forall|id: Seq<u8>|
                #![trigger final(self).cfs()[id]]
                old(self).cfs().contains_key(id) && !cf.ids().contains(id) ==> final(self).cfs()[id]
                    == old(self).cfs()[id],
            r matches Ok(previous) ==> value_view(previous) == lookup(
                old(self).cfs()[cf.datum_id()],
                key@,
            ),
            r is Ok && cf.separate() ==> final(self).cfs()[cf.datum_id()] == old(
                self,
            ).cfs()[cf.datum_id()].remove(key@),
            r is Ok && !old(self).cfs()[cf.datum_id()].contains_key(key@) ==> final(self).cfs()
                == old(self).cfs(),
            r is Ok && cf.separate() && cf.consistent::<D>(old(self).cfs()) ==> cf.consistent::<D>(
                final(self).cfs(),
            ),
            old(self).mode() == Mode::ReadOnly ==> {
                &&& r == Err::<Option<Vec<u8>>, Error>(
                    primary_failure(
                        "Failed deleting from",
                        cf.datum_handle().spec_name(),
                        Error::InvalidTransactionMode {
                            expected: Mode::ReadWrite,
                            actual: Mode::ReadOnly,
                        },
                    ),
                )
                &&& final(self).cfs() == old(self).cfs()
            },
            r matches Err(e) ==> is_delete_failure(e, cf.datum_handle().spec_name()),
            old(self).cfs()[cf.datum_id()].contains_key(key@) && !all_accept::<B, D>(
                old(self).cfs()[cf.datum_id()][key@],
            ) ==> r is Err,
            B::Transaction::reliable() && old(self).mode() != Mode::ReadOnly && (old(
                self,
            ).cfs()[cf.datum_id()].contains_key(key@) ==> all_accept::<B, D>(
                old(self).cfs()[cf.datum_id()][key@],
            )) ==> r is Ok,
    {
        let ghost cfs0 = self.cfs();
        let ghost did = cf.datum_id();
        let ghost data0 = cfs0[did];
        let ghost data1 = data0.remove(key@);
        let ghost hyp = cf.separate() && cf.consistent::<D>(cfs0);
        let previous = match self.transaction.delete(cf.datum_cf(), key) {
            Ok(previous) => previous,
            Err(e) => {
                return Err(
                    Error::in_cf(
                        CfOperationError::new("Failed deleting from", cf.datum_cf().name()),
                        e,
                    ),
                );
            },
        };
        let indexes = D::INDEXES;
        proof {
            assert(self.cfs().dom() =~= cfs0.dom());
            assert(cf.ids().contains(did));
            if cf.separate() {
                assert forall|i: int| 0 <= i < indexes@.len() implies cfs_hold(
                    self.cfs(),
                    #[trigger] cf.index_handles()[i],
                    indexes@[i].image(data0),
                ) == cfs_hold(cfs0, cf.index_handles()[i], indexes@[i].image(data0)) by {
                    lemma_untouched(cfs0, self.cfs(), cf.index_handles()[i], did);
                }
            }
        }
        if let Some(old_value) = &previous {
            let mut i: usize = 0;
            while i < indexes.len()
                invariant
                    i <= indexes@.len(),
                    indexes == D::INDEXES,
                    cf.describes::<D>(),
                    cf.in_scope(cfs0),
                    cfs0 == old(self).cfs(),
                    did == cf.datum_id(),
                    data0 == cfs0[did],
                    data1 == data0.remove(key@),
                    hyp == (cf.separate() && cf.consistent::<D>(cfs0)),
                    data0.contains_key(key@),
                    data0[key@] == old_value@,
                    self.mode() == old(self).mode(),
                    self.mode() != Mode::ReadOnly,
                    self.snapshot() == old(self).snapshot(),
                    self.locks() == old(self).locks(),
                    self.cfs().dom() == cfs0.dom(),
                    forall|id: Seq<u8>|
                        #![trigger self.cfs()[id]]
                        cfs0.contains_key(id) && !cf.ids().contains(id) ==> self.cfs()[id] == cfs0[id],
                    cf.separate() ==> self.cfs()[did] == data1,
                    hyp ==> forall|p: int|
                        0 <= p < indexes@.len() ==> cfs_hold(
                            self.cfs(),
                            #[trigger] cf.index_handles()[p],
                            indexes@[p].image(if p < i { data1 } else { data0 }),
                        ),
                    forall|p: int| 0 <= p < i ==> (#[trigger] indexes@[p]).accepts(old_value@),
                decreases indexes@.len() - i,
            {
                let indexer = indexes[i];
                let handles = cf.index_cfs(i);
                let ghost cfs_a = self.cfs();
                proof {
                    assert(handles@ == cf.index_handles()[i as int]);
                    assert(handles_name(cf.index_handles()[i as int], indexer.spec_cfs()));
                    lemma_scope_kept(cfs0, cfs_a, handles@);
                }
                match indexer.unindex_from_slice(
                    key,
                    old_value.as_slice(),
                    &mut self.transaction,
                    handles,
                ) {
                    Ok(()) => {},
                    Err(e) => {
                        proof {
                            lemma_frame_step::<B>(cf, cfs0, cfs_a, self.cfs(), i as int);
                            assert(self.cfs().dom() =~= cfs0.dom());
                        }
                        return Err(Error::in_step("Failed unindexing old value", e));
                    },
                }
                proof {
                    let cfs_b = self.cfs();
                    lemma_frame_step::<B>(cf, cfs0, cfs_a, cfs_b, i as int);
                    assert(cfs_b.dom() =~= cfs0.dom());
                    if cf.separate() {
                        assert(!handle_ids(cf.index_handles()[i as int]).contains(did));
                    }
                    if hyp {
                        assert(cfs_hold(cfs_a, handles@, indexer.image(data0)));
                        assert(cfs_hold(cfs_b, handles@, indexer.image(data1)));
                        assert forall|p: int| 0 <= p < indexes@.len() implies cfs_hold(
                            cfs_b,
                            #[trigger] cf.index_handles()[p],
                            indexes@[p].image(if p < i + 1 { data1 } else { data0 }),
                        ) by {
                            if p != i {
                                assert(handle_ids(cf.index_handles()[p]).disjoint(
                                    handle_ids(cf.index_handles()[i as int]),
                                ));
                                lemma_scope_kept(cfs0, cfs_a, cf.index_handles()[p]);
                                lemma_disjoint_untouched(
                                    cfs_a,
                                    cfs_b,
                                    cf.index_handles()[p],
                                    cf.index_handles()[i as int],
                                );
                                assert(cfs_hold(
                                    cfs_a,
                                    cf.index_handles()[p],
                                    indexes@[p].image(if p < i { data1 } else { data0 }),
                                ));
                            }
                        }
                    }
                }
                i += 1;
            }
            proof {
                if hyp {
                    assert forall|p: int| 0 <= p < D::INDEXES@.len() implies cfs_hold(
                        self.cfs(),
                        #[trigger] cf.index_handles()[p],
                        D::INDEXES@[p].image(self.cfs()[cf.datum_id()]),
                    ) by {
                        assert(cfs_hold(
                            self.cfs(),
                            cf.index_handles()[p],
                            indexes@[p].image(if p < i { data1 } else { data0 }),
                        ));
                    }
                }
            }
        } else {
            proof {
                assert(data1 =~= data0);
                assert(self.cfs() =~= cfs0);
            }
        }
        Ok(previous)
    }
}

/// Column families that stay in the domain stay in scope.
pub proof fn lemma_scope_kept<C: BackendCf>(before: Cfs, after: Cfs, handles: Seq<C>)
    requires
        handles_in_scope(handles, before),
        after.dom() == before.dom(),
    ensures
        handles_in_scope(handles, after),
{
    assert forall|i: int| 0 <= i < handles.len() implies after.contains_key(
        cf_id((#[trigger] handles[i]).spec_name()),
    ) by {
        assert(before.dom().contains(cf_id(handles[i].spec_name())));
    }
}

/// A change to the one column family `id` leaves the column families that
/// `handles` name as they were, where `id` is not among them.
pub proof fn lemma_untouched<C: BackendCf>(before: Cfs, after: Cfs, handles: Seq<C>, id: Seq<u8>)
    requires
        !handle_ids(handles).contains(id),
        after.dom() == before.dom(),
        forall|other: Seq<u8>| other != id && before.contains_key(other) ==> after[other] == before[other],
        handles_in_scope(handles, before),
    ensures
        forall|image: Seq<CfData>| cfs_hold(after, handles, image) == cfs_hold(before, handles, image),
{
    assert forall|image: Seq<CfData>| cfs_hold(after, handles, image) == cfs_hold(
        before,
        handles,
        image,
    ) by {
        assert forall|j: int| 0 <= j < handles.len() implies after[cf_id(
            (#[trigger] handles[j]).spec_name(),
        )] == before[cf_id(handles[j].spec_name())] by {
            assert(handle_ids(handles).contains(cf_id(handles[j].spec_name())));
        }
    }
}

/// A change to the column families that `changed` name leaves those that
/// `handles` name as they were, where the two have none in common.
pub proof fn lemma_disjoint_untouched<C: BackendCf>(
    before: Cfs,
    after: Cfs,
    handles: Seq<C>,
    changed: Seq<C>,
)
    requires
        handle_ids(handles).disjoint(handle_ids(changed)),
        only_changed(before, after, changed),
        handles_in_scope(handles, before),
    ensures
        forall|image: Seq<CfData>| cfs_hold(after, handles, image) == cfs_hold(before, handles, image),
{
    assert forall|image: Seq<CfData>| cfs_hold(after, handles, image) == cfs_hold(
        before,
        handles,
        image,
    ) by {
        assert forall|j: int| 0 <= j < handles.len() implies after[cf_id(
            (#[trigger] handles[j]).spec_name(),
        )] == before[cf_id(handles[j].spec_name())] by {
            let id = cf_id(handles[j].spec_name());
            assert(handle_ids(handles).contains(id));
            assert(!handle_ids(changed).contains(id));
            assert(before.contains_key(id));
        }
    }
}

/// One step of index maintenance, on the column families of the index at
/// `i`, keeps what the steps before it have kept: the domain, every column
/// family outside the record and, where the record is separate, the column
/// family of the objects.
pub proof fn lemma_frame_step<B: Backend>(
    cf: &TransactionCf<B>,
    cfs0: Cfs,
    before: Cfs,
    after: Cfs,
    i: int,
)
    requires
        0 <= i < cf.index_handles().len(),
        before.dom() == cfs0.dom(),
        only_changed(before, after, cf.index_handles()[i]),
        forall|id: Seq<u8>|
            #![trigger before[id]]
            cfs0.contains_key(id) && !cf.ids().contains(id) ==> before[id] == cfs0[id],
    ensures
        after.dom() == cfs0.dom(),
        forall|id: Seq<u8>|
            #![trigger after[id]]
            cfs0.contains_key(id) && !cf.ids().contains(id) ==> after[id] == cfs0[id],
        cf.separate() && before.contains_key(cf.datum_id()) ==> after[cf.datum_id()]
            == before[cf.datum_id()],
{
    assert forall|id: Seq<u8>|
        #![trigger after[id]]
        cfs0.contains_key(id) && !cf.ids().contains(id) implies after[id] == cfs0[id] by {
        assert(before.contains_key(id));
        assert(!handle_ids(cf.index_handles()[i]).contains(id));
        assert(before[id] == cfs0[id]);
    }
}

} // verus!
