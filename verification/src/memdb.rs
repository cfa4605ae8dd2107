//! A storage engine that keeps everything in memory.
//!
//! A transaction works on its own copy of the column families in its
//! scope. Committing it puts the copies in the place of the originals,
//! unless one of the originals has changed since the transaction started.

use vstd::prelude::*;
use crate::backend::{borrowed_handle_ids, committed, stale, Backend, BackendCf};
use crate::builder::{BackendBuilder, Builder, BuilderConfig};
use crate::db::rebuilt;
use crate::handles::name_ids;
use crate::indexer::{all_empty, IndexMaintenance, Indexer};
use crate::column_family::ColumnFamily;
use crate::errors::{CfOperationError, Error};
use crate::mode::Mode;
use crate::names::{
    lemma_name_position, lemma_name_pushed, name_position, names_contain, names_distinct,
    NameMap,
};
use crate::range::KeyRange;
use crate::store::{cf_id, CfData, Cfs};

verus! {

/// A handle on a column family of the engine: its name.
pub struct Cf {
    name: &'static str,
}

impl BackendCf for Cf {
    closed spec fn spec_name(&self) -> &'static str {
        self.name
    }

    fn name(&self) -> (n: &'static str) {
        self.name
    }
}

/// A handle on a column family in the scope of a transaction.
pub struct TransactionCf {
    name: &'static str,
}

impl BackendCf for TransactionCf {
    closed spec fn spec_name(&self) -> &'static str {
        self.name
    }

    fn name(&self) -> (n: &'static str) {
        self.name
    }
}

/// A column family as a transaction holds it.
struct Scoped {
    /// The contents when the transaction started.
    snapshot: ColumnFamily,
    /// The contents as the transaction sees them now.
    data: ColumnFamily,
    /// Whether the transaction holds the exclusive lock.
    locked: bool,
}

/// An open transaction of the in-memory engine.
pub struct Transaction {
    mode: Mode,
    cfs: NameMap<Scoped>,
}

impl Transaction {
    /// Exchanges the contents of the column family at position `i` with
    /// `data`.
    fn swap_data(&mut self, i: usize, data: &mut ColumnFamily)
        requires
            i < old(self).cfs.names().len(),
        ensures
            final(self).mode == old(self).mode,
            final(self).cfs.names() == old(self).cfs.names(),
            final(self).cfs.values().len() == old(self).cfs.values().len(),
            forall|j: int|
                0 <= j < old(self).cfs.values().len() && j != i
                    ==> #[trigger] final(self).cfs.values()[j] == old(self).cfs.values()[j],
            final(self).cfs.values()[i as int].snapshot == old(self).cfs.values()[i as int].snapshot,
            final(self).cfs.values()[i as int].locked == old(self).cfs.values()[i as int].locked,
            final(self).cfs.values()[i as int].data == *old(data),
            *final(data) == old(self).cfs.values()[i as int].data,
    {
        let mut scoped = Scoped {
            snapshot: ColumnFamily::new(),
            data: ColumnFamily::new(),
            locked: false,
        };
        self.cfs.swap_value(i, &mut scoped);
        std::mem::swap(&mut scoped.data, data);
        self.cfs.swap_value(i, &mut scoped);
    }
}

impl crate::backend::Transaction for Transaction {
    type Cf = TransactionCf;

    closed spec fn mode(&self) -> Mode {
        self.mode
    }

    closed spec fn cfs(&self) -> Cfs {
        Map::new(|id: Seq<u8>| self.cfs.has(id), |id: Seq<u8>| self.cfs.at(id).data@)
    }

    closed spec fn snapshot(&self) -> Cfs {
        Map::new(|id: Seq<u8>| self.cfs.has(id), |id: Seq<u8>| self.cfs.at(id).snapshot@)
    }

    closed spec fn locks(&self) -> Set<Seq<u8>> {
        Set::new(|id: Seq<u8>| self.cfs.has(id) && self.cfs.at(id).locked)
    }

    open spec fn reliable() -> bool {
        true
    }

    fn current_mode(&self) -> (m: Mode) {
        self.mode
    }

    fn take_exclusive_lock(&mut self, cf: &TransactionCf) -> (r: Result<(), Error>) {
        if !matches!(self.mode, Mode::IndexRebuilding) {
            return Err(
                Error::InvalidTransactionMode {
                    expected: Mode::IndexRebuilding,
                    actual: self.mode,
                },
            );
        }
        match self.cfs.find(cf.name) {
            Some(i) => {
                let mut scoped = Scoped {
                    snapshot: ColumnFamily::new(),
                    data: ColumnFamily::new(),
                    locked: false,
                };
                self.cfs.swap_value(i, &mut scoped);
                scoped.locked = true;
                self.cfs.swap_value(i, &mut scoped);
                proof {
                    let before = old(self).cfs;
                    let after = self.cfs;
                    assert forall|id: Seq<u8>| after.has(id) implies after.at(id).data
                        == before.at(id).data && after.at(id).snapshot == before.at(id).snapshot
                        && after.at(id).locked == (before.at(id).locked || id == cf_id(cf.name)) by {
                        let j = name_position(after.names(), id);
                        lemma_name_position(after.names(), i as int);
                    }
                    assert(self.cfs() =~= old(self).cfs());
                    assert(self.snapshot() =~= old(self).snapshot());
                    assert(self.locks() =~= old(self).locks().insert(cf_id(cf.name)));
                }
                Ok(())
            },
            None => Err(Error::NoSuchCf(cf.name)),
        }
    }

    fn get(&self, cf: &TransactionCf, key: &[u8]) -> (r: Result<Option<Vec<u8>>, Error>) {
        match self.cfs.find(cf.name) {
            Some(i) => Ok(self.cfs.value_at(i).data.get(key)),
            None => Err(Error::NoSuchCf(cf.name)),
        }
    }

    fn scan(&self, cf: &TransactionCf, range: &KeyRange<Vec<u8>>) -> (r: Result<
        Vec<(Vec<u8>, Vec<u8>)>,
        Error,
    >) {
        assert(crate::backend::Transaction::cfs(self).contains_key(cf_id(cf.spec_name())));
        assert(self.cfs.has(cf_id(cf.name)));
        match self.cfs.find(cf.name) {
            Some(i) => {
                let items = self.cfs.value_at(i).data.range(range);
                assert(self.cfs.at(cf_id(cf.name)) == self.cfs.values()[i as int]);
                assert(self.cfs()[cf_id(cf.spec_name())] == self.cfs.values()[i as int].data@);
                Ok(items)
            },
            None => Err(Error::NoSuchCf(cf.name)),
        }
    }

    fn put(&mut self, cf: &TransactionCf, key: &[u8], value: &[u8]) -> (r: Result<
        Option<Vec<u8>>,
        Error,
    >) {
        if matches!(self.mode, Mode::ReadOnly) {
            return Err(
                Error::InvalidTransactionMode { expected: Mode::ReadWrite, actual: Mode::ReadOnly },
            );
        }
        match self.cfs.find(cf.name) {
            Some(i) => {
                let mut data = ColumnFamily::new();
                self.swap_data(i, &mut data);
                let previous = data.insert(key, value);
                self.swap_data(i, &mut data);
                proof {
                    self.lemma_changed(*old(self), i as int);
                }
                Ok(previous)
            },
            None => Err(Error::NoSuchCf(cf.name)),
        }
    }

    fn delete(&mut self, cf: &TransactionCf, key: &[u8]) -> (r: Result<Option<Vec<u8>>, Error>) {
        if matches!(self.mode, Mode::ReadOnly) {
            return Err(
                Error::InvalidTransactionMode { expected: Mode::ReadWrite, actual: Mode::ReadOnly },
            );
        }
        match self.cfs.find(cf.name) {
            Some(i) => {
                let mut data = ColumnFamily::new();
                self.swap_data(i, &mut data);
                let previous = data.remove(key);
                self.swap_data(i, &mut data);
                proof {
                    self.lemma_changed(*old(self), i as int);
                }
                Ok(previous)
            },
            None => Err(Error::NoSuchCf(cf.name)),
        }
    }

    fn clear(&mut self, cf: &TransactionCf) -> (r: Result<(), Error>) {
        if matches!(self.mode, Mode::ReadOnly) {
            return Err(
                Error::InvalidTransactionMode { expected: Mode::ReadWrite, actual: Mode::ReadOnly },
            );
        }
        match self.cfs.find(cf.name) {
            Some(i) => {
                let mut data = ColumnFamily::new();
                self.swap_data(i, &mut data);
                proof {
                    self.lemma_changed(*old(self), i as int);
                }
                Ok(())
            },
            None => Err(Error::NoSuchCf(cf.name)),
        }
    }
}

impl Transaction {
    /// What a transaction stands for after the contents of the column
    /// family at position `i`, and nothing else, were changed.
    proof fn lemma_changed(self, before: Transaction, i: int)
        requires
            names_distinct(before.cfs.names()),
            before.cfs.names().len() == before.cfs.values().len(),
            0 <= i < before.cfs.names().len(),
            self.mode == before.mode,
            self.cfs.names() == before.cfs.names(),
            self.cfs.values().len() == before.cfs.values().len(),
            forall|j: int|
                0 <= j < before.cfs.values().len() && j != i ==> #[trigger] self.cfs.values()[j]
                    == before.cfs.values()[j],
            self.cfs.values()[i].snapshot == before.cfs.values()[i].snapshot,
            self.cfs.values()[i].locked == before.cfs.values()[i].locked,
        ensures
            crate::backend::Transaction::snapshot(&self) == crate::backend::Transaction::snapshot(
                &before,
            ),
            crate::backend::Transaction::locks(&self) == crate::backend::Transaction::locks(&before),
            crate::backend::Transaction::cfs(&self) == crate::backend::Transaction::cfs(
                &before,
            ).insert(cf_id(before.cfs.names()[i]), self.cfs.values()[i].data@),
    {
        let names = before.cfs.names();
        lemma_name_position(names, i);
        assert forall|id: Seq<u8>| self.cfs.has(id) implies {
            &&& self.cfs.at(id).snapshot == before.cfs.at(id).snapshot
            &&& self.cfs.at(id).locked == before.cfs.at(id).locked
            &&& id != cf_id(names[i]) ==> self.cfs.at(id).data == before.cfs.at(id).data
            &&& id == cf_id(names[i]) ==> self.cfs.at(id).data == self.cfs.values()[i].data
        } by {
            let j = name_position(names, id);
            if j != i {
                assert(self.cfs.values()[j] == before.cfs.values()[j]);
            }
        }
        assert(crate::backend::Transaction::snapshot(&self)
            =~= crate::backend::Transaction::snapshot(&before));
        assert(crate::backend::Transaction::locks(&self) =~= crate::backend::Transaction::locks(
            &before,
        ));
        assert(crate::backend::Transaction::cfs(&self) =~= crate::backend::Transaction::cfs(
            &before,
        ).insert(cf_id(names[i]), self.cfs.values()[i].data@));
    }
}

/// The in-memory engine.
pub struct MemDb {
    db: NameMap<ColumnFamily>,
}

impl MemDb {
    /// An engine without column families.
    pub fn new() -> (db: Self)
        ensures
            db.state() == Cfs::empty(),
    {
        let db = MemDb { db: NameMap::new() };
        assert(db.state() =~= Cfs::empty());
        db
    }

    /// Creates the column family called `name`, empty. Returns whether
    /// there was none of that name before; where there was one, nothing
    /// changes.
    pub fn create_cf(&mut self, name: &'static str) -> (created: bool)
        ensures
            created == !old(self).state().contains_key(cf_id(name)),
            created ==> final(self).state() == old(self).state().insert(cf_id(name), CfData::empty()),
            !created ==> final(self).state() == old(self).state(),
    {
        let r = self.db.insert(name, ColumnFamily::new());
        proof {
            if r is Ok {
                lemma_name_pushed(
                    old(self).db.names(),
                    old(self).db.values(),
                    name,
                    self.db.values().last(),
                );
                assert(self.state() =~= old(self).state().insert(cf_id(name), CfData::empty()));
            }
        }
        r.is_ok()
    }

    /// Whether there is a column family called `name`.
    pub fn has_cf(&self, name: &str) -> (r: bool)
        ensures
            r == self.state().contains_key(cf_id(name)),
    {
        self.db.find(name).is_some()
    }
}

impl Backend for MemDb {
    type Cf = Cf;

    type TransactionCf = TransactionCf;

    type Transaction = Transaction;

    closed spec fn state(&self) -> Cfs {
        Map::new(|id: Seq<u8>| self.db.has(id), |id: Seq<u8>| self.db.at(id)@)
    }

    open spec fn reliable() -> bool {
        true
    }

    fn cf_handle(&self, name: &'static str) -> (r: Result<Cf, Error>) {
        match self.db.find(name) {
            Some(_) => Ok(Cf { name }),
            None => Err(Error::NoSuchCf(name)),
        }
    }

    fn transaction(&self, mode: Mode, cfs: &[&Cf]) -> (r: Result<
        (Transaction, Vec<TransactionCf>),
        Error,
    >)
        ensures
            forall|i: int|
                0 <= i < cfs@.len() && !self.state().contains_key(cf_id(cfs@[i].spec_name())) && (
                forall|j: int|
                    0 <= j < i ==> self.state().contains_key(cf_id(#[trigger] cfs@[j].spec_name())))
                    ==> r == Err::<(Transaction, Vec<TransactionCf>), Error>(
                    missing_cf(cfs@[i].spec_name()),
                ),
    {
        let mut scoped: NameMap<Scoped> = NameMap::new();
        let mut handles: Vec<TransactionCf> = Vec::new();
        let mut i: usize = 0;
        while i < cfs.len()
            invariant
                i <= cfs@.len(),
                handles@.len() == i,
                scoped.names().len() == scoped.values().len(),
                names_distinct(scoped.names()),
                forall|k: int| 0 <= k < i ==> (#[trigger] handles@[k]).name == cfs@[k].name,
                forall|k: int| 0 <= k < i ==> self.db.has(cf_id(#[trigger] cfs@[k].name)),
                forall|id: Seq<u8>|
                    scoped.has(id) <==> exists|k: int| 0 <= k < i && cf_id(#[trigger] cfs@[k].name) == id,
                forall|id: Seq<u8>|
                    scoped.has(id) ==> {
                        &&& (#[trigger] scoped.at(id)).data@ == self.db.at(id)@
                        &&& scoped.at(id).snapshot@ == self.db.at(id)@
                        &&& !scoped.at(id).locked
                    },
            decreases cfs@.len() - i,
        {
            let name = cfs[i].name;
            match self.db.find(name) {
                None => {
                    assert(!self.state().contains_key(cf_id(cfs@[i as int].spec_name())));
                    assert(!borrowed_handle_ids(cfs@).subset_of(self.state().dom())) by {
                        assert(borrowed_handle_ids(cfs@).contains(cf_id(cfs@[i as int].spec_name())));
                    }
                    assert forall|j: int| 0 <= j < i implies self.state().contains_key(
                        cf_id(#[trigger] cfs@[j].spec_name()),
                    ) by {
                        assert(self.db.has(cf_id(cfs@[j].name)));
                    }
                    return Err(
                        Error::Cf {
                            context: CfOperationError::new("Column family does not exist:", name),
                            source: Box::new(Error::NoSuchCf(name)),
                        },
                    );
                },
                Some(j) => {
                    let data = self.db.value_at(j).duplicate();
                    let snapshot = self.db.value_at(j).duplicate();
                    let ghost before = scoped;
                    let fresh = Scoped { snapshot, data, locked: false };
                    let r = scoped.insert(name, fresh);
                    handles.push(TransactionCf { name });
                    proof {
                        if r is Ok {
                            lemma_name_pushed(before.names(), before.values(), name, fresh);
                        }
                        assert forall|id: Seq<u8>| scoped.has(id) implies {
                            &&& (#[trigger] scoped.at(id)).data@ == self.db.at(id)@
                            &&& scoped.at(id).snapshot@ == self.db.at(id)@
                            &&& !scoped.at(id).locked
                        } by {
                            if r is Ok && id == cf_id(name) {
                                assert(scoped.at(id) == fresh);
                            } else {
                                assert(before.has(id));
                                assert(scoped.at(id) == before.at(id));
                            }
                        }
                        assert forall|id: Seq<u8>| scoped.has(id) <==> exists|k: int|
                            0 <= k < i + 1 && cf_id(#[trigger] cfs@[k].name) == id by {
                            if scoped.has(id) {
                                if before.has(id) {
                                    let k = choose|k: int|
                                        0 <= k < i && cf_id(#[trigger] cfs@[k].name) == id;
                                    assert(cf_id(cfs@[k].name) == id);
                                } else {
                                    assert(cf_id(cfs@[i as int].name) == id);
                                }
                            }
                            if exists|k: int| 0 <= k < i + 1 && cf_id(#[trigger] cfs@[k].name) == id {
                                let k = choose|k: int|
                                    0 <= k < i + 1 && cf_id(#[trigger] cfs@[k].name) == id;
                                if k < i {
                                    assert(before.has(id));
                                }
                            }
                        }
                    }
                },
            }
            i += 1;
        }
        let transaction = Transaction { mode, cfs: scoped };
        proof {
            let ids = borrowed_handle_ids(cfs@);
            assert forall|id: Seq<u8>| ids.contains(id) <==> scoped.has(id) by {
                if ids.contains(id) {
                    let k = choose|k: int| 0 <= k < cfs@.len() && cf_id(#[trigger] cfs@[k].spec_name()) == id;
                    assert(cf_id(cfs@[k].name) == id);
                }
                if scoped.has(id) {
                    let k = choose|k: int| 0 <= k < i && cf_id(#[trigger] cfs@[k].name) == id;
                    assert(cf_id(cfs@[k].spec_name()) == id);
                }
            }
            assert forall|id: Seq<u8>| ids.contains(id) implies self.state().dom().contains(id) by {
                let k = choose|k: int| 0 <= k < cfs@.len() && cf_id(#[trigger] cfs@[k].spec_name()) == id;
                assert(self.db.has(cf_id(cfs@[k].name)));
            }
            assert(crate::backend::Transaction::snapshot(&transaction) =~= self.state().restrict(ids));
            assert(crate::backend::Transaction::cfs(&transaction)
                =~= crate::backend::Transaction::snapshot(&transaction));
            assert(crate::backend::Transaction::locks(&transaction) =~= Set::<Seq<u8>>::empty());
            assert forall|k: int| 0 <= k < cfs@.len() implies self.state().contains_key(
                cf_id(#[trigger] cfs@[k].spec_name()),
            ) by {
                assert(self.db.has(cf_id(cfs@[k].name)));
            }
        }
        Ok((transaction, handles))
    }

    fn commit(&mut self, transaction: Transaction) -> (r: Result<(), Error>)
        ensures
            stale(old(self).state(), &transaction) ==> r is Err,
            r matches Err(e) ==> e is Conflict,
    {
        if matches!(transaction.mode, Mode::ReadOnly) {
            return Ok(());
        }
        let n = transaction.cfs.len();
        let _ = self.db.len();
        let mut i: usize = 0;
        while i < n
            invariant
                i <= n,
                n == transaction.cfs.names().len(),
                n == transaction.cfs.values().len(),
                names_distinct(transaction.cfs.names()),
                transaction.mode != Mode::ReadOnly,
                *self == *old(self),
                forall|k: int|
                    0 <= k < i ==> {
                        &&& self.db.has(cf_id(#[trigger] transaction.cfs.names()[k]))
                        &&& self.db.at(cf_id(transaction.cfs.names()[k]))@
                            == transaction.cfs.values()[k].snapshot@
                    },
            decreases n - i,
        {
            let name = transaction.cfs.name_at(i);
            proof {
                lemma_name_position(transaction.cfs.names(), i as int);
                assert(crate::backend::Transaction::snapshot(&transaction).contains_key(cf_id(name)));
                assert(crate::backend::Transaction::snapshot(&transaction)[cf_id(name)]
                    == transaction.cfs.values()[i as int].snapshot@);
            }
            match self.db.find(name) {
                None => {
                    assert(stale(self.state(), &transaction));
                    return Err(Error::Conflict(name));
                },
                Some(j) => {
                    if !self.db.value_at(j).same_as(&transaction.cfs.value_at(i).snapshot) {
                        assert(self.state()[cf_id(name)] == self.db.at(cf_id(name))@);
                        assert(stale(self.state(), &transaction));
                        return Err(Error::Conflict(name));
                    }
                },
            }
            i += 1;
        }
        proof {
            if stale(self.state(), &transaction) {
                let id = choose|id: Seq<u8>|
                    #![trigger crate::backend::Transaction::snapshot(&transaction).contains_key(id)]
                    crate::backend::Transaction::snapshot(&transaction).contains_key(id) && (
                    !self.state().contains_key(id) || self.state()[id]
                        != crate::backend::Transaction::snapshot(&transaction)[id]);
                let k = name_position(transaction.cfs.names(), id);
                assert(self.db.has(cf_id(transaction.cfs.names()[k])));
            }
            assert(!stale(self.state(), &transaction));
        }
        let mut i: usize = 0;
        while i < n
            invariant
                i <= n,
                n == transaction.cfs.names().len(),
                n == transaction.cfs.values().len(),
                names_distinct(transaction.cfs.names()),
                self.db.names() == old(self).db.names(),
                self.db.names().len() == self.db.values().len(),
                self.db.values().len() == old(self).db.values().len(),
                names_distinct(self.db.names()),
                forall|k: int| 0 <= k < n ==> self.db.has(cf_id(#[trigger] transaction.cfs.names()[k])),
                forall|p: int|
                    0 <= p < self.db.values().len() ==> (#[trigger] self.db.values()[p])@ == (if exists|
                        k: int,
                    |
                        0 <= k < i && cf_id(#[trigger] transaction.cfs.names()[k]) == cf_id(
                            self.db.names()[p],
                        ) {
                        crate::backend::Transaction::cfs(&transaction)[cf_id(self.db.names()[p])]
                    } else {
                        old(self).db.values()[p]@
                    }),
            decreases n - i,
        {
            let name = transaction.cfs.name_at(i);
            proof {
                lemma_name_position(transaction.cfs.names(), i as int);
                assert(self.db.has(cf_id(transaction.cfs.names()[i as int])));
            }
            match self.db.find(name) {
                Some(j) => {
                    let mut data = transaction.cfs.value_at(i).data.duplicate();
                    let ghost before = self.db;
                    self.db.swap_value(j, &mut data);
                    proof {
                        lemma_name_position(self.db.names(), j as int);
                        assert forall|p: int| 0 <= p < self.db.values().len() implies (
                        #[trigger] self.db.values()[p])@ == (if exists|k: int|
                            0 <= k < i + 1 && cf_id(#[trigger] transaction.cfs.names()[k]) == cf_id(
                                self.db.names()[p],
                            ) {
                            crate::backend::Transaction::cfs(&transaction)[cf_id(
                                self.db.names()[p],
                            )]
                        } else {
                            old(self).db.values()[p]@
                        }) by {
                            if p == j {
                                assert(cf_id(transaction.cfs.names()[i as int]) == cf_id(
                                    self.db.names()[p],
                                ));
                            } else {
                                assert(self.db.values()[p] == before.values()[p]);
                                if cf_id(transaction.cfs.names()[i as int]) == cf_id(
                                    self.db.names()[p],
                                ) {
                                    lemma_name_position(self.db.names(), p);
                                }
                                if exists|k: int|
                                    0 <= k < i + 1 && cf_id(#[trigger] transaction.cfs.names()[k])
                                        == cf_id(self.db.names()[p]) {
                                    let k = choose|k: int|
                                        0 <= k < i + 1 && cf_id(
                                            #[trigger] transaction.cfs.names()[k],
                                        ) == cf_id(self.db.names()[p]);
                                    assert(k < i);
                                }
                            }
                        }
                    }
                },
                None => {},
            }
            i += 1;
        }
        proof {
            let target = committed(old(self).state(), &transaction);
            let tcfs = crate::backend::Transaction::cfs(&transaction);
            assert forall|id: Seq<u8>| self.state().contains_key(id) implies #[trigger] self.state()[id]
                == target[id] by {
                let p = name_position(self.db.names(), id);
                if tcfs.contains_key(id) {
                    let k = name_position(transaction.cfs.names(), id);
                    assert(cf_id(transaction.cfs.names()[k]) == cf_id(self.db.names()[p]));
                } else {
                    if exists|k: int|
                        0 <= k < n && cf_id(#[trigger] transaction.cfs.names()[k]) == cf_id(
                            self.db.names()[p],
                        ) {
                        let k = choose|k: int|
                            0 <= k < n && cf_id(#[trigger] transaction.cfs.names()[k]) == cf_id(
                                self.db.names()[p],
                            );
                        assert(transaction.cfs.has(id));
                    }
                }
            }
            assert forall|id: Seq<u8>| target.contains_key(id) implies self.state().contains_key(
                id,
            ) by {
                if tcfs.contains_key(id) {
                    let k = name_position(transaction.cfs.names(), id);
                    assert(self.db.has(cf_id(transaction.cfs.names()[k])));
                }
            }
            assert(self.state() =~= target);
        }
        Ok(())
    }
}

/// The failure of a transaction over a column family that does not exist.
pub open spec fn missing_cf(name: &'static str) -> Error {
    Error::Cf {
        context: CfOperationError::new_spec("Column family does not exist:", name),
        source: Box::new(Error::NoSuchCf(name)),
    }
}

/// The builder of the in-memory engine.
pub struct MemDbBuilder {
    _private: (),
}

/// Column families with the identities `ids`, all of them empty.
pub open spec fn empty_cfs(ids: Set<Seq<u8>>) -> Cfs {
    Map::new(|id: Seq<u8>| ids.contains(id), |id: Seq<u8>| CfData::empty())
}

/// Whether the index at `k` of `config` can be rebuilt on an engine that
/// has the column families of `config`: whether those of the index and that
/// of its objects are among them, and the index keeps no rows in the column
/// family of its objects.
pub open spec fn can_rebuild(config: &BuilderConfig<MemDb, ()>, k: int) -> bool {
    let rebuilder = config.index_rebuilders@[k];
    &&& config.cfs.has(cf_id(rebuilder.datum_cf))
    &&& name_ids(rebuilder.rebuilder.spec_cfs()).subset_of(config.cfs.ids())
    &&& !crate::names::names_contain(rebuilder.rebuilder.spec_cfs(), cf_id(rebuilder.datum_cf))
}

impl MemDb {
    /// The declaration of a database on an in-memory engine.
    pub fn builder() -> (b: Builder<MemDbBuilder>)
        ensures
            b.config_cfs().names() == Seq::<&'static str>::empty(),
            b.used_cfs() == Seq::<&'static str>::empty(),
            b.rebuilders().len() == 0,
            !b.drops_unknown_cfs(),
            !b.requires_all_cfs_configured(),
            !b.allows_extra_cf_config(),
    {
        Builder::new(MemDbBuilder { _private: () })
    }
}

impl BackendBuilder for MemDbBuilder {
    type Target = MemDb;

    type CfOptions = ();

    open spec fn succeeds(&self, config: &BuilderConfig<MemDb, ()>) -> bool {
        forall|k: int| 0 <= k < config.index_rebuilders@.len() ==> can_rebuild(config, k)
    }

    fn build(self, config: BuilderConfig<MemDb, ()>) -> (r: Result<MemDb, Error>)
        ensures
            r is Ok <==> self.succeeds(&config),
            r matches Ok(db) ==> db.state() == empty_cfs(config.cfs.ids()),
    {
        let mut db = MemDb::new();
        let n = config.cfs.len();
        let mut i: usize = 0;
        assert(config.cfs.names().take(0) =~= Seq::empty());
        while i < n
            invariant
                i <= n,
                n == config.cfs.names().len(),
                db.state() =~= empty_cfs(name_ids(config.cfs.names().take(i as int))),
            decreases n - i,
        {
            let name = config.cfs.name_at(i);
            let created = db.create_cf(name);
            proof {
                let earlier = config.cfs.names().take(i as int);
                let now = config.cfs.names().take(i + 1);
                assert(now =~= earlier.push(name));
                assert forall|id: Seq<u8>| name_ids(now).contains(id) <==> name_ids(
                    earlier,
                ).contains(id) || id == cf_id(name) by {
                    if name_ids(now).contains(id) {
                        let p = name_position(now, id);
                        if p < i {
                            assert(cf_id(earlier[p]) == id);
                        }
                    }
                    if name_ids(earlier).contains(id) {
                        let p = name_position(earlier, id);
                        assert(cf_id(now[p]) == id);
                    }
                    if id == cf_id(name) {
                        assert(cf_id(now[i as int]) == id);
                    }
                }
            }
            i += 1;
        }
        proof {
            assert(config.cfs.names().take(i as int) =~= config.cfs.names());
            assert(name_ids(config.cfs.names()) =~= config.cfs.ids());
        }
        let mut k: usize = 0;
        while k < config.index_rebuilders.len()
            invariant
                k <= config.index_rebuilders@.len(),
                db.state() == empty_cfs(config.cfs.ids()),
                forall|p: int| 0 <= p < k ==> can_rebuild(&config, p),
            decreases config.index_rebuilders@.len() - k,
        {
            let rebuilder = &config.index_rebuilders[k];
            let names = rebuilder.rebuilder.cfs();
            let ghost before = db.state();
            match rebuilder.run(&mut db) {
                Ok(()) => {},
                Err(e) => {
                    proof {
                        if can_rebuild(&config, k as int) {
                            assert(before.contains_key(cf_id(rebuilder.datum_cf)));
                            assert(name_ids(rebuilder.rebuilder.spec_cfs()).subset_of(before.dom()));
                        }
                    }
                    return Err(e);
                },
            }
            proof {
                let image = rebuilder.rebuilder.image(before[cf_id(rebuilder.datum_cf)]);
                assert(before[cf_id(rebuilder.datum_cf)] == CfData::empty());
                assert(image == all_empty(names@.len()));
                assert forall|id: Seq<u8>| before.contains_key(id) implies #[trigger] db.state()[id]
                    == before[id] by {
                    if crate::names::names_contain(names@, id) {
                        let j = name_position(names@, id);
                        assert(db.state()[cf_id(names@[j])] == image[j]);
                    }
                }
                assert(db.state() =~= before);
                assert(can_rebuild(&config, k as int)) by {
                    assert(name_ids(rebuilder.rebuilder.spec_cfs()).subset_of(config.cfs.ids()));
                }
            }
            k += 1;
        }
        proof {
            assert forall|id: Seq<u8>| name_ids(config.cfs.names()).contains(id) implies db.state().dom().contains(
                id,
            ) by {
                assert(config.cfs.has(id));
            }
        }
        Ok(db)
    }
}

} // verus!
