//! Indexes that can be asked for objects.

use vstd::prelude::*;
use crate::backend::{handles_in_scope, handles_name, Backend, BackendCf, Transaction};
use crate::errors::Error;
use crate::indexer::{cfs_hold, Indexer};
use crate::store::{cf_id, CfData};

verus! {

/// An index that answers queries: it walks some of its rows and looks up
/// the object that each row stands for.
pub trait Index<B: Backend>: Indexer<B> {
    /// What can be asked.
    type Query;

    /// The key under which an answer gives an object.
    type QueryKey;

    /// Whether `found` is the answer to `query` where the column family of
    /// the objects holds `objects` and the index agrees with it: whether it
    /// lists the rows that the query asks for, each with the object of the
    /// row as stored.
    open spec fn answers(
        &self,
        query: &Self::Query,
        objects: CfData,
        found: Seq<(Self::QueryKey, Vec<u8>)>,
    ) -> bool {
        arbitrary()
    }

    /// The objects that `query` asks for, each with its key, in the order
    /// of the rows of the index. The index has to agree with the column
    /// family `object_cf` of the objects.
    fn query(
        &self,
        query: &Self::Query,
        transaction: &B::Transaction,
        object_cf: &B::TransactionCf,
        cfs: &[B::TransactionCf],
    ) -> (r: Result<Vec<(Self::QueryKey, Vec<u8>)>, Error>)
        requires
            handles_name(cfs@, self.spec_cfs()),
            handles_in_scope(cfs@, transaction.cfs()),
            transaction.cfs().contains_key(cf_id(object_cf.spec_name())),
            cfs_hold(
                transaction.cfs(),
                cfs@,
                self.image(transaction.cfs()[cf_id(object_cf.spec_name())]),
            ),
        ensures
            B::Transaction::reliable() ==> r is Ok,
            r matches Ok(found) ==> self.answers(
                query,
                transaction.cfs()[cf_id(object_cf.spec_name())],
                found@,
            ),
    ;
}

} // verus!
