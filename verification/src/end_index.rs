//! The index at the end of a chain: it stores one row for each object,
//! under whatever key prefix has been gathered followed by the key of the
//! object.

use std::marker::PhantomData;
use vstd::prelude::*;
use crate::backend::{handle_ids, Backend, BackendCf, Transaction};
use crate::datum::Datum;
use crate::errors::Error;
use crate::indexer::{all_empty, cfs_hold, default_rebuild, IndexMaintenance, Indexer};
use crate::mode::Mode;
use crate::store::{cf_id, CfData, Cfs};

verus! {

/// The terminal index of the objects of `D`.
pub struct EndIndex<D> {
    /// The name of the column family of the index.
    pub cfs: &'static [&'static str; 1],
    /// The type of the objects.
    pub _phantom: PhantomData<D>,
}

impl<D: Datum> EndIndex<D> {
    /// The name of the column family of the index.
    pub open spec fn spec_cf(&self) -> &'static str {
        self.cfs@[0]
    }

    /// The rows of the index that stands alone, where the indexed column
    /// family holds `datum`: one row for each object, under the key of the
    /// object, with an empty value.
    pub open spec fn rows(datum: CfData) -> CfData {
        Map::new(|k: Seq<u8>| datum.contains_key(k), |k: Seq<u8>| Seq::<u8>::empty())
    }

    /// The index that keeps its rows in the column family `cfs[0]`.
    pub fn new(cfs: &'static [&'static str; 1]) -> (index: Self)
        ensures
            index.spec_cf() == cfs@[0],
    {
        EndIndex { cfs, _phantom: PhantomData }
    }

    /// The number of bytes that the index adds to the key of a row: the
    /// length of the key of the object.
    pub fn index_key_len(&self, object_key: &[u8], datum: &D) -> (n: usize)
        ensures
            n == object_key@.len(),
    {
        object_key.len()
    }

    /// Puts `object_key` behind the prefix that `index_key` holds and
    /// stores a row under the key so made.
    pub fn index<B: Backend>(
        &self,
        object_key: &[u8],
        datum: &D,
        transaction: &mut B::Transaction,
        cf: &B::TransactionCf,
        index_key: &mut Vec<u8>,
    ) -> (r: Result<(), Error>)
        requires
            old(transaction).cfs().contains_key(cf_id(cf.spec_name())),
        ensures
            final(index_key)@ == old(index_key)@ + object_key@,
            final(transaction).mode() == old(transaction).mode(),
            final(transaction).snapshot() == old(transaction).snapshot(),
            final(transaction).locks() == old(transaction).locks(),
            r is Ok ==> final(transaction).cfs() == old(transaction).cfs().insert(
                cf_id(cf.spec_name()),
                old(transaction).cfs()[cf_id(cf.spec_name())].insert(
                    old(index_key)@ + object_key@,
                    Seq::empty(),
                ),
            ),
            r is Err ==> final(transaction).cfs() == old(transaction).cfs(),
            old(transaction).mode() == Mode::ReadOnly ==> r == Err::<(), Error>(
                Error::InvalidTransactionMode {
                    expected: Mode::ReadWrite,
                    actual: Mode::ReadOnly,
                },
            ),
            B::Transaction::reliable() && old(transaction).mode() != Mode::ReadOnly ==> r is Ok,
    {
        index_key.extend_from_slice(object_key);
        let nothing: Vec<u8> = Vec::new();
        match transaction.put(cf, index_key.as_slice(), nothing.as_slice()) {
            Ok(_) => Ok(()),
            Err(e) => Err(e),
        }
    }

    /// Puts `object_key` behind the prefix that `index_key` holds and
    /// removes the row stored under the key so made.
    pub fn unindex<B: Backend>(
        &self,
        object_key: &[u8],
        datum: &D,
        transaction: &mut B::Transaction,
        cf: &B::TransactionCf,
        index_key: &mut Vec<u8>,
    ) -> (r: Result<(), Error>)
        requires
            old(transaction).cfs().contains_key(cf_id(cf.spec_name())),
        ensures
            final(index_key)@ == old(index_key)@ + object_key@,
            final(transaction).mode() == old(transaction).mode(),
            final(transaction).snapshot() == old(transaction).snapshot(),
            final(transaction).locks() == old(transaction).locks(),
            r is Ok ==> final(transaction).cfs() == old(transaction).cfs().insert(
                cf_id(cf.spec_name()),
                old(transaction).cfs()[cf_id(cf.spec_name())].remove(old(index_key)@ + object_key@),
            ),
            r is Err ==> final(transaction).cfs() == old(transaction).cfs(),
            old(transaction).mode() == Mode::ReadOnly ==> r == Err::<(), Error>(
                Error::InvalidTransactionMode {
                    expected: Mode::ReadWrite,
                    actual: Mode::ReadOnly,
                },
            ),
            B::Transaction::reliable() && old(transaction).mode() != Mode::ReadOnly ==> r is Ok,
    {
        index_key.extend_from_slice(object_key);
        match transaction.delete(cf, index_key.as_slice()) {
            Ok(_) => Ok(()),
            Err(e) => Err(e),
        }
    }
}

impl<B: Backend, D: Datum> IndexMaintenance<B> for EndIndex<D> {
    open spec fn spec_cfs(&self) -> Seq<&'static str> {
        seq![self.spec_cf()]
    }

    open spec fn image(&self, datum: CfData) -> Seq<CfData> {
        seq![Self::rows(datum)]
    }

    open spec fn accepts(&self, value: Seq<u8>) -> bool {
        D::spec_from_slice(value) is Some
    }

    /// A row is put under the key of the object, with an empty value.
    open spec fn indexed(&self, object_key: Seq<u8>, slice: Seq<u8>, before: Cfs) -> Cfs {
        before.insert(
            cf_id(self.spec_cf()),
            before[cf_id(self.spec_cf())].insert(object_key, Seq::empty()),
        )
    }

    /// The row under the key of the object is taken out.
    open spec fn unindexed(&self, object_key: Seq<u8>, slice: Seq<u8>, before: Cfs) -> Cfs {
        before.insert(cf_id(self.spec_cf()), before[cf_id(self.spec_cf())].remove(object_key))
    }

    fn cfs(&self) -> (r: &'static [&'static str]) {
        proof {
            assert(Self::rows(CfData::empty()) =~= CfData::empty());
            assert(seq![Self::rows(CfData::empty())] =~= all_empty(1));
        }
        let r = self.cfs.as_slice();
        assert(r@ =~= seq![self.spec_cf()]);
        r
    }

    fn index_from_slice(
        &self,
        object_key: &[u8],
        slice: &[u8],
        transaction: &mut B::Transaction,
        cfs: &[B::TransactionCf],
    ) -> (r: Result<(), Error>) {
        let datum = match D::from_slice(slice) {
            Ok(datum) => datum,
            Err(e) => {
                return Err(Error::in_step("Failed to parse datum", e));
            },
        };
        let ghost before = transaction.cfs();
        proof {
            assert(before.contains_key(cf_id(cfs@[0].spec_name())));
            assert(handle_ids(cfs@).contains(cf_id(cfs@[0].spec_name())));
        }
        let mut index_key: Vec<u8> = Vec::new();
        match self.index::<B>(object_key, &datum, transaction, &cfs[0], &mut index_key) {
            Ok(()) => {},
            Err(e) => {
                return Err(Error::in_step("Failed to index datum", e));
            },
        }
        proof {
            assert(Seq::<u8>::empty() + object_key@ =~= object_key@);
            assert(transaction.cfs().dom() =~= before.dom());
            assert forall|datum: CfData|
                !datum.contains_key(object_key@) && #[trigger] cfs_hold(
                    before,
                    cfs@,
                    seq![Self::rows(datum)],
                ) implies cfs_hold(
                transaction.cfs(),
                cfs@,
                seq![Self::rows(datum.insert(object_key@, slice@))],
            ) by {
                assert(before[cf_id(cfs@[0].spec_name())] == seq![Self::rows(datum)][0]);
                assert(Self::rows(datum).insert(object_key@, Seq::empty()) =~= Self::rows(
                    datum.insert(object_key@, slice@),
                ));
            }
        }
        Ok(())
    }

    fn unindex_from_slice(
        &self,
        object_key: &[u8],
        slice: &[u8],
        transaction: &mut B::Transaction,
        cfs: &[B::TransactionCf],
    ) -> (r: Result<(), Error>) {
        let datum = match D::from_slice(slice) {
            Ok(datum) => datum,
            Err(e) => {
                return Err(Error::in_step("Failed to parse datum", e));
            },
        };
        let ghost before = transaction.cfs();
        proof {
            assert(before.contains_key(cf_id(cfs@[0].spec_name())));
            assert(handle_ids(cfs@).contains(cf_id(cfs@[0].spec_name())));
        }
        let mut index_key: Vec<u8> = Vec::new();
        match self.unindex::<B>(object_key, &datum, transaction, &cfs[0], &mut index_key) {
            Ok(()) => {},
            Err(e) => {
                return Err(Error::in_step("Failed to unindex datum", e));
            },
        }
        proof {
            assert(Seq::<u8>::empty() + object_key@ =~= object_key@);
            assert(transaction.cfs().dom() =~= before.dom());
            assert forall|datum: CfData|
                datum.contains_key(object_key@) && datum[object_key@] == slice@ && #[trigger] cfs_hold(
                    before,
                    cfs@,
                    seq![Self::rows(datum)],
                ) implies cfs_hold(
                transaction.cfs(),
                cfs@,
                seq![Self::rows(datum.remove(object_key@))],
            ) by {
                assert(before[cf_id(cfs@[0].spec_name())] == seq![Self::rows(datum)][0]);
                assert(Self::rows(datum).remove(object_key@) =~= Self::rows(
                    datum.remove(object_key@),
                ));
            }
        }
        Ok(())
    }
}

impl<B: Backend, D: Datum> Indexer<B> for EndIndex<D> {
    fn rebuild(
        &self,
        transaction: &mut B::Transaction,
        index_cfs: &[B::TransactionCf],
        datum_cf: &B::TransactionCf,
    ) -> (r: Result<(), Error>) {
        default_rebuild::<B, Self>(self, transaction, index_cfs, datum_cf)
    }
}

} // verus!
