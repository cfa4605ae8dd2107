//! How the objects of a column family are projected into the column
//! families of an index.

use vstd::prelude::*;
use crate::backend::{handle_ids, handles_in_scope, handles_name, Backend, BackendCf, Transaction};
use crate::errors::{CfOperationError, Error};
use crate::mode::Mode;
use crate::range::KeyRange;
use crate::store::{
    ascending, before_key, cf_id, lemma_full_scan_is_everything, lemma_listing_map_take,
    lemma_listing_take_is_before, listing_map, listing_view, CfData, Cfs,
};

verus! {

/// The column families that `handles` name hold, in order, the contents
/// `image`.
pub open spec fn cfs_hold<C: BackendCf>(cfs: Cfs, handles: Seq<C>, image: Seq<CfData>) -> bool {
    &&& image.len() == handles.len()
    &&& forall|j: int|
        0 <= j < handles.len() ==> cfs[cf_id((#[trigger] handles[j]).spec_name())] == image[j]
}

/// From `before` to `after`, no column family but those that `handles` name
/// has changed, and none has come or gone.
pub open spec fn only_changed<C: BackendCf>(before: Cfs, after: Cfs, handles: Seq<C>) -> bool {
    &&& after.dom() == before.dom()
    &&& forall|id: Seq<u8>|
        #![trigger after[id]]
        before.contains_key(id) && !handle_ids(handles).contains(id) ==> after[id] == before[id]
}

/// As many empty column families as `n`.
pub open spec fn all_empty(n: nat) -> Seq<CfData> {
    Seq::new(n, |j: int| CfData::empty())
}

/// Every value of `datum` is one that `indexer` can index.
pub open spec fn accepts_all<B: Backend, I: ?Sized + IndexMaintenance<B>>(
    indexer: &I,
    datum: CfData,
) -> bool {
    forall|k: Seq<u8>| datum.contains_key(k) ==> indexer.accepts(#[trigger] datum[k])
}

/// The maintenance of one index, object by object.
///
/// An index is a function of the column family that it indexes: `image`
/// says what the column families of the index hold for given contents of
/// the indexed one. Indexing an object and taking it out again move the
/// index from the image of the contents without the object to the image of
/// the contents with it, and back.
pub trait IndexMaintenance<B: Backend> {
    /// The names of the column families of the index, in order.
    open spec fn spec_cfs(&self) -> Seq<&'static str> {
        arbitrary()
    }

    /// What the column families of the index hold, in the order of
    /// `spec_cfs`, where the indexed column family holds `datum`.
    open spec fn image(&self, datum: CfData) -> Seq<CfData> {
        arbitrary()
    }

    /// Whether an object stored as `value` can be indexed.
    open spec fn accepts(&self, value: Seq<u8>) -> bool {
        arbitrary()
    }

    /// What the column families in scope hold once the object stored as
    /// `slice` under `object_key` has been indexed, where they held
    /// `before`.
    open spec fn indexed(&self, object_key: Seq<u8>, slice: Seq<u8>, before: Cfs) -> Cfs {
        arbitrary()
    }

    /// What the column families in scope hold once the object stored as
    /// `slice` under `object_key` has been taken out of the index, where
    /// they held `before`.
    open spec fn unindexed(&self, object_key: Seq<u8>, slice: Seq<u8>, before: Cfs) -> Cfs {
        arbitrary()
    }

    /// The names of the column families of the index. The index of an
    /// empty column family is empty.
    fn cfs(&self) -> (r: &'static [&'static str])
        ensures
            r@ == self.spec_cfs(),
            self.image(CfData::empty()) == all_empty(self.spec_cfs().len()),
    ;

    /// Writes the rows of the object stored as `slice` under `object_key`.
    fn index_from_slice(
        &self,
        object_key: &[u8],
        slice: &[u8],
        transaction: &mut B::Transaction,
        cfs: &[B::TransactionCf],
    ) -> (r: Result<(), Error>)
        requires
            handles_name(cfs@, self.spec_cfs()),
            handles_in_scope(cfs@, old(transaction).cfs()),
        ensures
            final(transaction).mode() == old(transaction).mode(),
            final(transaction).snapshot() == old(transaction).snapshot(),
            final(transaction).locks() == old(transaction).locks(),
            only_changed(old(transaction).cfs(), final(transaction).cfs(), cfs@),
            r is Ok ==> final(transaction).cfs() == self.indexed(
                object_key@,
                slice@,
                old(transaction).cfs(),
            ),
            r is Ok ==> forall|datum: CfData|
                !datum.contains_key(object_key@) && #[trigger] cfs_hold(
                    old(transaction).cfs(),
                    cfs@,
                    self.image(datum),
                ) ==> cfs_hold(
                    final(transaction).cfs(),
                    cfs@,
                    self.image(datum.insert(object_key@, slice@)),
                ),
            r is Err ==> final(transaction).cfs() == old(transaction).cfs(),
            !self.accepts(slice@) ==> r is Err,
            B::Transaction::reliable() && old(transaction).mode() != Mode::ReadOnly && self.accepts(
                slice@,
            ) ==> r is Ok,
    ;

    /// Removes the rows of the object stored as `slice` under `object_key`.
    fn unindex_from_slice(
        &self,
        object_key: &[u8],
        slice: &[u8],
        transaction: &mut B::Transaction,
        cfs: &[B::TransactionCf],
    ) -> (r: Result<(), Error>)
        requires
            handles_name(cfs@, self.spec_cfs()),
            handles_in_scope(cfs@, old(transaction).cfs()),
        ensures
            final(transaction).mode() == old(transaction).mode(),
            final(transaction).snapshot() == old(transaction).snapshot(),
            final(transaction).locks() == old(transaction).locks(),
            only_changed(old(transaction).cfs(), final(transaction).cfs(), cfs@),
            r is Ok ==> final(transaction).cfs() == self.unindexed(
                object_key@,
                slice@,
                old(transaction).cfs(),
            ),
            r is Ok ==> forall|datum: CfData|
                datum.contains_key(object_key@) && datum[object_key@] == slice@ && #[trigger] cfs_hold(
                    old(transaction).cfs(),
                    cfs@,
                    self.image(datum),
                ) ==> cfs_hold(
                    final(transaction).cfs(),
                    cfs@,
                    self.image(datum.remove(object_key@)),
                ),
            r is Err ==> final(transaction).cfs() == old(transaction).cfs(),
            !self.accepts(slice@) ==> r is Err,
            B::Transaction::reliable() && old(transaction).mode() != Mode::ReadOnly && self.accepts(
                slice@,
            ) ==> r is Ok,
    ;

}

/// The shape of the failure of a rebuild: the transaction was in the wrong
/// mode, a column family of the index could not be emptied, the column
/// family `datum_cf` of the objects could not be scanned, or an object could
/// not be indexed.
pub open spec fn is_rebuild_failure(e: Error, datum_cf: &'static str) -> bool {
    ||| e is InvalidTransactionMode
    ||| e matches Error::Cf { context, .. } && context.spec_msg() == "Failed clearing"
    ||| e matches Error::Cf { context, .. } && context == CfOperationError::new_spec(
        "Failed scanning through",
        datum_cf,
    )
    ||| e is Indexing
}

/// What `before` becomes when the column families that `handles` name are
/// emptied.
pub open spec fn cleared<C: BackendCf>(before: Cfs, handles: Seq<C>) -> Cfs
    decreases handles.len(),
{
    if handles.len() == 0 {
        before
    } else {
        cleared(before, handles.drop_last()).insert(
            cf_id(handles.last().spec_name()),
            CfData::empty(),
        )
    }
}

/// What a rebuild leaves behind where it fails with `e` in a transaction
/// that may rebuild: never a row that should not be there.
///
/// Where a column family of the index could not be emptied, those before
/// it are empty and nothing else has changed. Where the objects could not
/// be scanned, the index is empty. Where an object could not be indexed,
/// the failure names it, and the index holds the image of the objects
/// whose keys sort before its key.
pub open spec fn failed_rebuild_leaves<B: Backend, I: ?Sized + IndexMaintenance<B>>(
    this: &I,
    before: Cfs,
    after: Cfs,
    index_cfs: Seq<B::TransactionCf>,
    datum_cf: &'static str,
    e: Error,
) -> bool {
    match e {
        Error::Indexing { key, datum, source } => {
            &&& before[cf_id(datum_cf)].contains_key(key@)
            &&& before[cf_id(datum_cf)][key@] == datum@
            &&& cfs_hold(
                after,
                index_cfs,
                this.image(before_key(before[cf_id(datum_cf)], key@)),
            )
        },
        Error::Cf { context, source } => if context.spec_msg() == "Failed clearing" {
            exists|c: int|
                0 <= c < index_cfs.len() && context.spec_cf() == (#[trigger] index_cfs[c]).spec_name()
                    && after == cleared(before, index_cfs.take(c))
        } else {
            after == cleared(before, index_cfs)
        },
        _ => true,
    }
}

/// Rebuilds an index from what the indexed column family holds: empties the
/// column families of the index, then indexes every object of `datum_cf`,
/// in the order of their keys.
pub fn default_rebuild<B: Backend, I: ?Sized + IndexMaintenance<B>>(
    this: &I,
    transaction: &mut B::Transaction,
    index_cfs: &[B::TransactionCf],
    datum_cf: &B::TransactionCf,
) -> (r: Result<(), Error>)
    requires
        handles_name(index_cfs@, this.spec_cfs()),
        handles_in_scope(index_cfs@, old(transaction).cfs()),
        old(transaction).cfs().contains_key(cf_id(datum_cf.spec_name())),
        !handle_ids(index_cfs@).contains(cf_id(datum_cf.spec_name())),
    ensures
        final(transaction).mode() == old(transaction).mode(),
        final(transaction).snapshot() == old(transaction).snapshot(),
        final(transaction).locks() == old(transaction).locks(),
        only_changed(old(transaction).cfs(), final(transaction).cfs(), index_cfs@),
        old(transaction).mode() != Mode::IndexRebuilding ==> {
            &&& r == Err::<(), Error>(
                Error::InvalidTransactionMode {
                    expected: Mode::IndexRebuilding,
                    actual: old(transaction).mode(),
                },
            )
            &&& final(transaction).cfs() == old(transaction).cfs()
        },
        r is Ok ==> cfs_hold(
            final(transaction).cfs(),
            index_cfs@,
            this.image(old(transaction).cfs()[cf_id(datum_cf.spec_name())]),
        ),
        !accepts_all::<B, I>(this, old(transaction).cfs()[cf_id(datum_cf.spec_name())]) ==> r is Err,
        B::Transaction::reliable() && old(transaction).mode() == Mode::IndexRebuilding
            && accepts_all::<B, I>(this, old(transaction).cfs()[cf_id(datum_cf.spec_name())])
            ==> r is Ok,
        r matches Err(e) ==> is_rebuild_failure(e, datum_cf.spec_name()),
        r matches Err(e) ==> (old(transaction).mode() == Mode::IndexRebuilding
            ==> failed_rebuild_leaves::<B, I>(
            this,
            old(transaction).cfs(),
            final(transaction).cfs(),
            index_cfs@,
            datum_cf.spec_name(),
            e,
        )),
{
    let mode = transaction.current_mode();
    if !matches!(mode, Mode::IndexRebuilding) {
        return Err(Error::InvalidTransactionMode { expected: Mode::IndexRebuilding, actual: mode });
    }
    let names = this.cfs();
    let ghost before = transaction.cfs();
    let ghost datum_id = cf_id(datum_cf.spec_name());
    let ghost data = before[datum_id];
    let mut c: usize = 0;
    while c < index_cfs.len()
        invariant
            c <= index_cfs@.len(),
            handles_name(index_cfs@, this.spec_cfs()),
            handles_in_scope(index_cfs@, before),
            transaction.mode() == old(transaction).mode(),
            transaction.mode() == Mode::IndexRebuilding,
            transaction.snapshot() == old(transaction).snapshot(),
            transaction.locks() == old(transaction).locks(),
            before == old(transaction).cfs(),
            only_changed(before, transaction.cfs(), index_cfs@),
            forall|j: int|
                0 <= j < c ==> transaction.cfs()[cf_id((#[trigger] index_cfs@[j]).spec_name())]
                    == CfData::empty(),
            transaction.cfs() == cleared(before, index_cfs@.take(c as int)),
        decreases index_cfs@.len() - c,
    {
        let ghost earlier = transaction.cfs();
        assert(earlier.dom().contains(cf_id(index_cfs@[c as int].spec_name())));
        match transaction.clear(&index_cfs[c]) {
            Ok(()) => {},
            Err(e) => {
                proof {
                    CfOperationError::lemma_new_spec(
                        "Failed clearing",
                        index_cfs@[c as int].spec_name(),
                    );
                }
                return Err(
                    Error::in_cf(CfOperationError::new("Failed clearing", index_cfs[c].name()), e),
                );
            },
        }
        proof {
            let id = cf_id(index_cfs@[c as int].spec_name());
            assert(handle_ids(index_cfs@).contains(id));
            assert(transaction.cfs().dom() =~= earlier.dom());
            assert(index_cfs@.take(c + 1).drop_last() =~= index_cfs@.take(c as int));
            assert(index_cfs@.take(c + 1).last() == index_cfs@[c as int]);
        }
        c += 1;
    }
    proof {
        assert(index_cfs@.take(c as int) =~= index_cfs@);
    }
    proof {
        assert(transaction.cfs().dom().contains(datum_id));
        assert(transaction.cfs()[datum_id] == data);
    }
    let everything = KeyRange::all();
    let all_data = match transaction.scan(datum_cf, &everything) {
        Ok(items) => items,
        Err(e) => {
            proof {
                CfOperationError::lemma_new_spec("Failed scanning through", datum_cf.spec_name());
                reveal_strlit("Failed scanning through");
                reveal_strlit("Failed clearing");
            }
            return Err(
                Error::in_cf(CfOperationError::new("Failed scanning through", datum_cf.name()), e),
            );
        },
    };
    let ghost items = listing_view(all_data@);
    proof {
        lemma_full_scan_is_everything(items, data);
        assert(items.take(0) =~= Seq::empty());
        assert(listing_map(items.take(0)) =~= CfData::empty());
        assert(cfs_hold(transaction.cfs(), index_cfs@, this.image(listing_map(items.take(0)))));
    }
    let mut i: usize = 0;
    while i < all_data.len()
        invariant
            i <= all_data@.len(),
            items == listing_view(all_data@),
            ascending(items),
            listing_map(items) == data,
            data == old(transaction).cfs()[cf_id(datum_cf.spec_name())],
            handles_name(index_cfs@, this.spec_cfs()),
            handles_in_scope(index_cfs@, before),
            transaction.mode() == old(transaction).mode(),
            transaction.mode() == Mode::IndexRebuilding,
            transaction.snapshot() == old(transaction).snapshot(),
            transaction.locks() == old(transaction).locks(),
            before == old(transaction).cfs(),
            only_changed(before, transaction.cfs(), index_cfs@),
            cfs_hold(transaction.cfs(), index_cfs@, this.image(listing_map(items.take(i as int)))),
            forall|p: int| 0 <= p < i ==> this.accepts(#[trigger] items[p].1),
        decreases all_data@.len() - i,
    {
        let ghost earlier = transaction.cfs();
        proof {
            lemma_listing_map_take(items, i as int);
            assert(items[i as int] == (all_data@[i as int].0@, all_data@[i as int].1@));
            assert(handles_in_scope(index_cfs@, earlier)) by {
                assert(earlier.dom() =~= before.dom());
            }
            crate::store::lemma_listing_map_at(items, i as int);
        }
        let key = all_data[i].0.as_slice();
        let datum = all_data[i].1.as_slice();
        match this.index_from_slice(key, datum, transaction, index_cfs) {
            Ok(()) => {},
            Err(e) => {
                proof {
                    assert(transaction.cfs().dom() =~= before.dom());
                    assert(data.contains_key(items[i as int].0));
                    assert(data[items[i as int].0] == items[i as int].1);
                    lemma_listing_take_is_before(items, data, i as int);
                }
                return Err(
                    Error::Indexing {
                        key: crate::bytes::to_vec(key),
                        datum: crate::bytes::to_vec(datum),
                        source: Box::new(e),
                    },
                );
            },
        }
        proof {
            assert(transaction.cfs().dom() =~= before.dom());
        }
        i += 1;
    }
    proof {
        assert(items.take(i as int) =~= items);
        if !accepts_all::<B, I>(this, data) {
            let k = choose|k: Seq<u8>| data.contains_key(k) && !this.accepts(#[trigger] data[k]);
            let p = crate::store::position_of(items, k);
            crate::store::lemma_listing_map_at(items, p);
        }
    }
    Ok(())
}

/// An index: its maintenance object by object, and its rebuilding from
/// scratch.
pub trait Indexer<B: Backend>: IndexMaintenance<B> {
    /// Makes the index the image of what `datum_cf` holds. Only a
    /// transaction that rebuilds indexes may. `default_rebuild` is the
    /// canonical way to do it.
    fn rebuild(
        &self,
        transaction: &mut B::Transaction,
        index_cfs: &[B::TransactionCf],
        datum_cf: &B::TransactionCf,
    ) -> (r: Result<(), Error>)
        requires
            handles_name(index_cfs@, self.spec_cfs()),
            handles_in_scope(index_cfs@, old(transaction).cfs()),
            old(transaction).cfs().contains_key(cf_id(datum_cf.spec_name())),
            !handle_ids(index_cfs@).contains(cf_id(datum_cf.spec_name())),
        ensures
            final(transaction).mode() == old(transaction).mode(),
            final(transaction).snapshot() == old(transaction).snapshot(),
            final(transaction).locks() == old(transaction).locks(),
            only_changed(old(transaction).cfs(), final(transaction).cfs(), index_cfs@),
            old(transaction).mode() != Mode::IndexRebuilding ==> {
                &&& r == Err::<(), Error>(
                    Error::InvalidTransactionMode {
                        expected: Mode::IndexRebuilding,
                        actual: old(transaction).mode(),
                    },
                )
                &&& final(transaction).cfs() == old(transaction).cfs()
            },
            r is Ok ==> cfs_hold(
                final(transaction).cfs(),
                index_cfs@,
                self.image(old(transaction).cfs()[cf_id(datum_cf.spec_name())]),
            ),
            (exists|k: Seq<u8>|
                old(transaction).cfs()[cf_id(datum_cf.spec_name())].contains_key(k) && !self.accepts(
                    #[trigger] old(transaction).cfs()[cf_id(datum_cf.spec_name())][k],
                )) ==> r is Err,
            B::Transaction::reliable() && old(transaction).mode() == Mode::IndexRebuilding && (
            forall|k: Seq<u8>|
                old(transaction).cfs()[cf_id(datum_cf.spec_name())].contains_key(k) ==> self.accepts(
                    #[trigger] old(transaction).cfs()[cf_id(datum_cf.spec_name())][k],
                )) ==> r is Ok,
    ;
}

} // verus!
