//! The B-tree index itself.

use vstd::prelude::*;
use crate::backend::{handle_ids, Backend, BackendCf, Transaction};
use crate::btree::key::{parsed, Key};
use crate::btree::query::{BTreeQuery, Query};
use crate::bytes;
use crate::errors::{CfOperationError, Error};
use crate::index::Index;
use crate::indexer::{all_empty, cfs_hold, default_rebuild, IndexMaintenance, Indexer};
use crate::mode::Mode;

use crate::store::{cf_id, is_scan_of, listing_view, lookup, CfData, Cfs, Listing};

verus! {

/// An index with one row for each object that its key extractor does not
/// leave out. The row is stored in the one column family of the index,
/// under the extracted key followed by the key of the object, with an empty
/// value.
pub struct BTreeIndex<K> {
    /// The name of the column family of the index.
    pub cf: &'static [&'static str; 1],
    /// The key extractor.
    pub key: K,
}

impl<K: Key> BTreeIndex<K> {
    /// The name of the column family of the index.
    pub open spec fn spec_cf(&self) -> &'static str {
        self.cf@[0]
    }

    /// The key extractor.
    pub open spec fn key(&self) -> K {
        self.key
    }

    /// The key of the row of the object stored as `value` under
    /// `object_key`, or nothing where the object has no row: where `value`
    /// does not parse or the extractor leaves the object out.
    pub open spec fn entry(&self, object_key: Seq<u8>, value: Seq<u8>) -> Option<Seq<u8>> {
        match parsed::<K>(value) {
            Some(datum) => match self.key().spec_key(&datum) {
                Some(extracted) => Some(extracted + object_key),
                None => None,
            },
            None => None,
        }
    }

    /// The rows of the index where the indexed column family holds `datum`:
    /// the row of each of its objects.
    pub open spec fn rows(&self, datum: CfData) -> CfData {
        Map::new(
            |row: Seq<u8>|
                exists|k: Seq<u8>| datum.contains_key(k) && #[trigger] self.entry(k, datum[k]) == Some(row),
            |row: Seq<u8>| Seq::<u8>::empty(),
        )
    }

    /// The index that keeps its rows in the column family `cf[0]`, under
    /// the keys that `key` extracts.
    pub fn new(cf: &'static [&'static str; 1], key: K) -> (index: Self)
        ensures
            index.spec_cf() == cf@[0],
            index.key() == key,
    {
        BTreeIndex { cf, key }
    }

    /// The row of an object determines the key of the object.
    pub proof fn lemma_entry_injective(&self, k1: Seq<u8>, v1: Seq<u8>, k2: Seq<u8>, v2: Seq<u8>)
        requires
            self.entry(k1, v1) is Some,
            self.entry(k1, v1) == self.entry(k2, v2),
        ensures
            k1 == k2,
    {
        let d1 = parsed::<K>(v1).unwrap();
        let d2 = parsed::<K>(v2).unwrap();
        let e1 = self.key().spec_key(&d1).unwrap();
        let e2 = self.key().spec_key(&d2).unwrap();
        self.key().lemma_key_len(&d1, k1);
        self.key().lemma_key_len(&d2, k2);
        assert(e1.len() == e2.len());
        assert((e1 + k1).skip(e1.len() as int) =~= k1);
        assert((e2 + k2).skip(e2.len() as int) =~= k2);
    }

    /// A new object adds its row, if it has one, and nothing else.
    pub proof fn lemma_rows_insert(&self, datum: CfData, k: Seq<u8>, v: Seq<u8>)
        requires
            !datum.contains_key(k),
        ensures
            self.rows(datum.insert(k, v)) == (match self.entry(k, v) {
                Some(row) => self.rows(datum).insert(row, Seq::empty()),
                None => self.rows(datum),
            }),
    {
        let after = datum.insert(k, v);
        let target = match self.entry(k, v) {
            Some(row) => self.rows(datum).insert(row, Seq::empty()),
            None => self.rows(datum),
        };
        assert forall|row: Seq<u8>| self.rows(after).contains_key(row) <==> target.contains_key(
            row,
        ) by {
            if self.rows(after).contains_key(row) {
                let k2 = choose|k2: Seq<u8>|
                    after.contains_key(k2) && #[trigger] self.entry(k2, after[k2]) == Some(row);
                if k2 != k {
                    assert(datum.contains_key(k2) && self.entry(k2, datum[k2]) == Some(row));
                }
            }
            if self.rows(datum).contains_key(row) {
                let k2 = choose|k2: Seq<u8>|
                    datum.contains_key(k2) && #[trigger] self.entry(k2, datum[k2]) == Some(row);
                assert(after.contains_key(k2) && self.entry(k2, after[k2]) == Some(row));
            }
            if self.entry(k, v) == Some(row) {
                assert(after.contains_key(k) && self.entry(k, after[k]) == Some(row));
            }
        }
        assert(self.rows(after) =~= target);
    }

    /// An object that goes takes its row with it, if it had one, and
    /// nothing else.
    pub proof fn lemma_rows_remove(&self, datum: CfData, k: Seq<u8>)
        requires
            datum.contains_key(k),
        ensures
            self.rows(datum.remove(k)) == (match self.entry(k, datum[k]) {
                Some(row) => self.rows(datum).remove(row),
                None => self.rows(datum),
            }),
    {
        let after = datum.remove(k);
        let target = match self.entry(k, datum[k]) {
            Some(row) => self.rows(datum).remove(row),
            None => self.rows(datum),
        };
        assert forall|row: Seq<u8>| self.rows(after).contains_key(row) <==> target.contains_key(
            row,
        ) by {
            if self.rows(after).contains_key(row) {
                let k2 = choose|k2: Seq<u8>|
                    after.contains_key(k2) && #[trigger] self.entry(k2, after[k2]) == Some(row);
                assert(datum.contains_key(k2) && self.entry(k2, datum[k2]) == Some(row));
                if self.entry(k, datum[k]) == Some(row) {
                    self.lemma_entry_injective(k, datum[k], k2, datum[k2]);
                }
            }
            if target.contains_key(row) {
                let k2 = choose|k2: Seq<u8>|
                    datum.contains_key(k2) && #[trigger] self.entry(k2, datum[k2]) == Some(row);
                assert(k2 != k);
                assert(after.contains_key(k2) && self.entry(k2, after[k2]) == Some(row));
            }
        }
        assert(self.rows(after).dom() =~= target.dom());
        assert forall|row: Seq<u8>| target.contains_key(row) implies #[trigger] target[row]
            == Seq::<u8>::empty() by {
            assert(self.rows(datum).contains_key(row));
        }
        assert(self.rows(after) =~= target);
    }

    /// Index agreement in full: the keys of the index are the rows of the
    /// objects of the indexed column family, and every value is empty.
    pub proof fn lemma_rows_are_entries(&self, datum: CfData, row: Seq<u8>)
        ensures
            self.rows(datum).contains_key(row) <==> exists|k: Seq<u8>|
                datum.contains_key(k) && #[trigger] self.entry(k, datum[k]) == Some(row),
            self.rows(datum).contains_key(row) ==> self.rows(datum)[row] == Seq::<u8>::empty(),
    {
    }
}

/// Room for a key of `hint` bytes followed by `extra` bytes, as far as that
/// is a modest amount.
fn with_room(hint: usize, extra: usize) -> (key: Vec<u8>)
    ensures
        key@ == Seq::<u8>::empty(),
{
    let wanted = hint.saturating_add(extra);
    if wanted <= 4096 {
        Vec::with_capacity(wanted)
    } else {
        Vec::new()
    }
}

impl<K: Key> BTreeIndex<K> {
    /// Writes the row of the object `datum` kept under `object_key`, if the
    /// extractor does not leave it out.
    pub fn index<B: Backend>(
        &self,
        object_key: &[u8],
        datum: &K::Datum,
        transaction: &mut B::Transaction,
        cfs: &[B::TransactionCf],
    ) -> (r: Result<(), Error>)
        requires
            cfs@.len() == 1,
            old(transaction).cfs().contains_key(cf_id(cfs@[0].spec_name())),
        ensures
            final(transaction).mode() == old(transaction).mode(),
            final(transaction).snapshot() == old(transaction).snapshot(),
            final(transaction).locks() == old(transaction).locks(),
            r is Ok ==> final(transaction).cfs() == (match self.key().spec_key(datum) {
                Some(extracted) => old(transaction).cfs().insert(
                    cf_id(cfs@[0].spec_name()),
                    old(transaction).cfs()[cf_id(cfs@[0].spec_name())].insert(
                        extracted + object_key@,
                        Seq::empty(),
                    ),
                ),
                None => old(transaction).cfs(),
            }),
            r is Err ==> final(transaction).cfs() == old(transaction).cfs(),
            r matches Err(e) ==> e matches Error::Cf { context, .. } && context
                == CfOperationError::new_spec("Failed putting key into", cfs@[0].spec_name()),
            self.key().spec_key(datum) is Some && old(transaction).mode() == Mode::ReadOnly ==> r is Err,
            self.key().spec_key(datum) is None ==> r is Ok,
            B::Transaction::reliable() && old(transaction).mode() != Mode::ReadOnly ==> r is Ok,
    {
        let mut key = with_room(self.key.len_hint(datum), object_key.len());
        let do_index = self.key.extract_key(datum, &mut key);
        if do_index {
            key.extend_from_slice(object_key);
            assert(key@ =~= self.key().spec_key(datum).unwrap() + object_key@);
            let nothing: Vec<u8> = Vec::new();
            match transaction.put(&cfs[0], key.as_slice(), nothing.as_slice()) {
                Ok(_) => {},
                Err(e) => {
                    return Err(
                        Error::in_cf(
                            CfOperationError::new("Failed putting key into", cfs[0].name()),
                            e,
                        ),
                    );
                },
            }
        }
        Ok(())
    }

    /// Removes the row of the object `datum` kept under `object_key`, if
    /// the extractor does not leave it out.
    pub fn unindex<B: Backend>(
        &self,
        object_key: &[u8],
        datum: &K::Datum,
        transaction: &mut B::Transaction,
        cfs: &[B::TransactionCf],
    ) -> (r: Result<(), Error>)
        requires
            cfs@.len() == 1,
            old(transaction).cfs().contains_key(cf_id(cfs@[0].spec_name())),
        ensures
            final(transaction).mode() == old(transaction).mode(),
            final(transaction).snapshot() == old(transaction).snapshot(),
            final(transaction).locks() == old(transaction).locks(),
            r is Ok ==> final(transaction).cfs() == (match self.key().spec_key(datum) {
                Some(extracted) => old(transaction).cfs().insert(
                    cf_id(cfs@[0].spec_name()),
                    old(transaction).cfs()[cf_id(cfs@[0].spec_name())].remove(
                        extracted + object_key@,
                    ),
                ),
                None => old(transaction).cfs(),
            }),
            r is Err ==> final(transaction).cfs() == old(transaction).cfs(),
            r matches Err(e) ==> e matches Error::Cf { context, .. } && context
                == CfOperationError::new_spec("Failed deleting key from", cfs@[0].spec_name()),
            self.key().spec_key(datum) is Some && old(transaction).mode() == Mode::ReadOnly ==> r is Err,
            self.key().spec_key(datum) is None ==> r is Ok,
            B::Transaction::reliable() && old(transaction).mode() != Mode::ReadOnly ==> r is Ok,
    {
        let mut key = with_room(self.key.len_hint(datum), object_key.len());
        let do_unindex = self.key.extract_key(datum, &mut key);
        if do_unindex {
            key.extend_from_slice(object_key);
            assert(key@ =~= self.key().spec_key(datum).unwrap() + object_key@);
            match transaction.delete(&cfs[0], key.as_slice()) {
                Ok(_) => {},
                Err(e) => {
                    return Err(
                        Error::in_cf(
                            CfOperationError::new("Failed deleting key from", cfs[0].name()),
                            e,
                        ),
                    );
                },
            }
        }
        Ok(())
    }
}

impl<B: Backend, K: Key> IndexMaintenance<B> for BTreeIndex<K> {
    open spec fn spec_cfs(&self) -> Seq<&'static str> {
        seq![self.spec_cf()]
    }

    open spec fn image(&self, datum: CfData) -> Seq<CfData> {
        seq![self.rows(datum)]
    }

    open spec fn accepts(&self, value: Seq<u8>) -> bool {
        parsed::<K>(value) is Some
    }

    /// The row of the object is put into the column family of the index,
    /// with an empty value; nothing is written for an object without a row.
    open spec fn indexed(&self, object_key: Seq<u8>, slice: Seq<u8>, before: Cfs) -> Cfs {
        match self.entry(object_key, slice) {
            Some(row) => before.insert(
                cf_id(self.spec_cf()),
                before[cf_id(self.spec_cf())].insert(row, Seq::empty()),
            ),
            None => before,
        }
    }

    /// The row of the object is taken out of the column family of the
    /// index; nothing is written for an object without a row.
    open spec fn unindexed(&self, object_key: Seq<u8>, slice: Seq<u8>, before: Cfs) -> Cfs {
        match self.entry(object_key, slice) {
            Some(row) => before.insert(
                cf_id(self.spec_cf()),
                before[cf_id(self.spec_cf())].remove(row),
            ),
            None => before,
        }
    }

    fn cfs(&self) -> (r: &'static [&'static str]) {
        proof {
            assert(self.rows(CfData::empty()) =~= CfData::empty());
            assert(seq![self.rows(CfData::empty())] =~= all_empty(1));
        }
        let r = self.cf.as_slice();
        assert(r@ =~= seq![self.spec_cf()]);
        r
    }

    fn index_from_slice(
        &self,
        object_key: &[u8],
        slice: &[u8],
        transaction: &mut B::Transaction,
        cfs: &[B::TransactionCf],
    ) -> (r: Result<(), Error>) {
        let hint = match self.key.len_hint_from_slice(slice) {
            Ok(hint) => hint,
            Err(e) => {
                return Err(Error::in_step("Failed estimating key length from slice", e));
            },
        };
        let mut key = with_room(hint, object_key.len());
        let do_index = match self.key.extract_key_from_slice(slice, &mut key) {
            Ok(do_index) => do_index,
            Err(e) => {
                return Err(Error::in_step("Failed extracting key from slice", e));
            },
        };
        let ghost before = transaction.cfs();
        let ghost id = cf_id(cfs@[0].spec_name());
        proof {
            assert(before.contains_key(id));
            assert(handle_ids(cfs@).contains(id));
        }
        if do_index {
            key.extend_from_slice(object_key);
            let nothing: Vec<u8> = Vec::new();
            match transaction.put(&cfs[0], key.as_slice(), nothing.as_slice()) {
                Ok(_) => {},
                Err(e) => {
                    return Err(
                        Error::in_cf(
                            CfOperationError::new("Failed putting key into", cfs[0].name()),
                            e,
                        ),
                    );
                },
            }
            assert(self.entry(object_key@, slice@) == Some(key@));
        }
        proof {
            assert(transaction.cfs().dom() =~= before.dom());
            assert forall|datum: CfData|
                !datum.contains_key(object_key@) && #[trigger] cfs_hold(
                    before,
                    cfs@,
                    seq![self.rows(datum)],
                ) implies cfs_hold(
                transaction.cfs(),
                cfs@,
                seq![self.rows(datum.insert(object_key@, slice@))],
            ) by {
                self.lemma_rows_insert(datum, object_key@, slice@);
                assert(before[cf_id(cfs@[0].spec_name())] == seq![self.rows(datum)][0]);
            }
        }
        Ok(())
    }

    fn unindex_from_slice(
        &self,
        object_key: &[u8],
        slice: &[u8],
        transaction: &mut B::Transaction,
        cfs: &[B::TransactionCf],
    ) -> (r: Result<(), Error>) {
        let hint = match self.key.len_hint_from_slice(slice) {
            Ok(hint) => hint,
            Err(e) => {
                return Err(Error::in_step("Failed estimating key length", e));
            },
        };
        let mut key = with_room(hint, object_key.len());
        let do_unindex = match self.key.extract_key_from_slice(slice, &mut key) {
            Ok(do_unindex) => do_unindex,
            Err(e) => {
                return Err(Error::in_step("Failed extracting key from slice", e));
            },
        };
        let ghost before = transaction.cfs();
        let ghost id = cf_id(cfs@[0].spec_name());
        proof {
            assert(before.contains_key(id));
            assert(handle_ids(cfs@).contains(id));
        }
        if do_unindex {
            key.extend_from_slice(object_key);
            match transaction.delete(&cfs[0], key.as_slice()) {
                Ok(_) => {},
                Err(e) => {
                    return Err(
                        Error::in_cf(
                            CfOperationError::new("Failed deleting key from", cfs[0].name()),
                            e,
                        ),
                    );
                },
            }
            assert(self.entry(object_key@, slice@) == Some(key@));
        }
        proof {
            assert(transaction.cfs().dom() =~= before.dom());
            assert forall|datum: CfData|
                datum.contains_key(object_key@) && datum[object_key@] == slice@ && #[trigger] cfs_hold(
                    before,
                    cfs@,
                    seq![self.rows(datum)],
                ) implies cfs_hold(
                transaction.cfs(),
                cfs@,
                seq![self.rows(datum.remove(object_key@))],
            ) by {
                self.lemma_rows_remove(datum, object_key@);
                assert(before[cf_id(cfs@[0].spec_name())] == seq![self.rows(datum)][0]);
            }
        }
        Ok(())
    }

}

impl<B: Backend, K: Key> Indexer<B> for BTreeIndex<K> {
    fn rebuild(
        &self,
        transaction: &mut B::Transaction,
        index_cfs: &[B::TransactionCf],
        datum_cf: &B::TransactionCf,
    ) -> (r: Result<(), Error>) {
        default_rebuild::<B, Self>(self, transaction, index_cfs, datum_cf)
    }
}

/// The key of an object that a query has found: the tail of the stored key
/// of its row.
pub struct BTreeQueryKey {
    key: Vec<u8>,
    start: usize,
}

impl View for BTreeQueryKey {
    type V = Seq<u8>;

    /// The key of the object.
    open spec fn view(&self) -> Seq<u8> {
        self.stored().skip(self.spec_start() as int)
    }
}

impl BTreeQueryKey {
    #[verifier::type_invariant]
    spec fn within(&self) -> bool {
        self.start <= self.key@.len()
    }

    /// The stored key of the row.
    pub closed spec fn stored(&self) -> Seq<u8> {
        self.key@
    }

    /// Where the key of the object starts in the stored key.
    pub closed spec fn spec_start(&self) -> nat {
        self.start as nat
    }

    /// The key of the object.
    pub fn as_ref(&self) -> (r: &[u8])
        ensures
            r@ == self@,
    {
        proof {
            use_type_invariant(self);
        }
        let r = vstd::slice::slice_subrange(self.key.as_slice(), self.start, self.key.len());
        assert(r@ =~= self@);
        r
    }

    /// The stored key of the row.
    pub fn index_key(&self) -> (r: &[u8])
        ensures
            r@ == self.stored(),
    {
        self.key.as_slice()
    }
}

/// The rows that the answer `found` of a query stands for.
pub open spec fn found_rows(found: Seq<(BTreeQueryKey, Vec<u8>)>) -> Listing {
    Seq::new(found.len(), |i: int| (found[i].0.stored(), Seq::<u8>::empty()))
}

impl<K: Key> BTreeIndex<K> {
    /// The objects that `query` asks for: for each row of the index that
    /// the question walks, in ascending order of the stored keys, the key
    /// of the object of the row and the object as stored.
    pub fn query<B: Backend>(
        &self,
        query: &BTreeQuery,
        transaction: &B::Transaction,
        object_cf: &B::TransactionCf,
        cfs: &[B::TransactionCf],
    ) -> (r: Result<Vec<(BTreeQueryKey, Vec<u8>)>, Error>)
        requires
            cfs@.len() == 1,
            transaction.cfs().contains_key(cf_id(cfs@[0].spec_name())),
            transaction.cfs().contains_key(cf_id(object_cf.spec_name())),
            transaction.cfs()[cf_id(cfs@[0].spec_name())] == self.rows(
                transaction.cfs()[cf_id(object_cf.spec_name())],
            ),
        ensures
            B::Transaction::reliable() ==> r is Ok,
            r matches Err(e) ==> e is Cf,
            r matches Ok(found) ==> {
                &&& is_scan_of(
                    found_rows(found@),
                    transaction.cfs()[cf_id(cfs@[0].spec_name())],
                    query.spec_range(),
                )
                &&& forall|i: int|
                    0 <= i < found@.len() ==> {
                        &&& (#[trigger] found@[i]).0.spec_start() == self.key().spec_key_len(
                            found@[i].0.stored(),
                        )
                        &&& lookup(
                            transaction.cfs()[cf_id(object_cf.spec_name())],
                            found@[i].0@,
                        ) == Some(found@[i].1@)
                    }
            },
    {
        let ghost index_data = transaction.cfs()[cf_id(cfs@[0].spec_name())];
        let ghost objects = transaction.cfs()[cf_id(object_cf.spec_name())];
        let scanned = match query.get() {
            Query::Equal(key) => transaction.scan_prefix(&cfs[0], key.as_slice()),
            Query::Prefix(prefix) => transaction.scan_prefix(&cfs[0], prefix.as_slice()),
            Query::Range(range) => transaction.scan(&cfs[0], range),
        };
        let rows = match scanned {
            Ok(rows) => rows,
            Err(e) => {
                return Err(Error::in_cf(CfOperationError::new("Failed scanning", cfs[0].name()), e));
            },
        };
        let ghost items = listing_view(rows@);
        let mut found: Vec<(BTreeQueryKey, Vec<u8>)> = Vec::new();
        let mut i: usize = 0;
        while i < rows.len()
            invariant
                i <= rows@.len(),
                items == listing_view(rows@),
                is_scan_of(items, index_data, query.spec_range()),
                index_data == self.rows(objects),
                objects == transaction.cfs()[cf_id(object_cf.spec_name())],
                transaction.cfs().contains_key(cf_id(object_cf.spec_name())),
                found@.len() == i,
                forall|p: int| 0 <= p < i ==> (#[trigger] found@[p]).0.stored() == items[p].0,
                forall|p: int|
                    0 <= p < i ==> {
                        &&& (#[trigger] found@[p]).0.spec_start() == self.key().spec_key_len(
                            found@[p].0.stored(),
                        )
                        &&& lookup(objects, found@[p].0@) == Some(found@[p].1@)
                    },
            decreases rows@.len() - i,
        {
            let index_key = bytes::to_vec(rows[i].0.as_slice());
            let key_len = self.key.key_len(index_key.as_slice());
            proof {
                assert(items[i as int].0 == index_key@);
                assert(index_data.contains_key(items[i as int].0));
                let k = choose|k: Seq<u8>|
                    objects.contains_key(k) && #[trigger] self.entry(k, objects[k]) == Some(
                        index_key@,
                    );
                let datum = parsed::<K>(objects[k]).unwrap();
                let extracted = self.key().spec_key(&datum).unwrap();
                self.key().lemma_key_len(&datum, k);
                assert((extracted + k).skip(extracted.len() as int) =~= k);
            }
            let object_key = BTreeQueryKey { key: index_key, start: key_len };
            let object_value = match transaction.get(object_cf, object_key.as_ref()) {
                Ok(Some(value)) => value,
                Ok(None) => vstd::pervasive::unreached(),
                Err(e) => {
                    return Err(
                        Error::in_cf(
                            CfOperationError::new("Failed getting object", object_cf.name()),
                            e,
                        ),
                    );
                },
            };
            found.push((object_key, object_value));
            i += 1;
        }
        proof {
            assert(found_rows(found@) =~= items) by {
                assert forall|p: int| 0 <= p < items.len() implies found_rows(found@)[p]
                    == items[p] by {
                    assert(found@[p].0.stored() == items[p].0);
                    assert(index_data[items[p].0] == items[p].1);
                }
            }
        }
        Ok(found)
    }
}

impl<B: Backend, K: Key> Index<B> for BTreeIndex<K> {
    type Query = BTreeQuery;

    type QueryKey = BTreeQueryKey;

    /// The answer lists the rows of the index whose stored keys lie in the
    /// range of the query, in ascending order of the stored keys; each
    /// gives the key of its object, which is the stored key behind the
    /// extracted key, and the object as the column family of the objects
    /// holds it.
    open spec fn answers(
        &self,
        query: &BTreeQuery,
        objects: CfData,
        found: Seq<(BTreeQueryKey, Vec<u8>)>,
    ) -> bool {
        &&& is_scan_of(found_rows(found), self.rows(objects), query.spec_range())
        &&& forall|i: int|
            0 <= i < found.len() ==> {
                &&& (#[trigger] found[i]).0.spec_start() == self.key().spec_key_len(
                    found[i].0.stored(),
                )
                &&& lookup(objects, found[i].0@) == Some(found[i].1@)
            }
    }

    fn query(
        &self,
        query: &BTreeQuery,
        transaction: &B::Transaction,
        object_cf: &B::TransactionCf,
        cfs: &[B::TransactionCf],
    ) -> (r: Result<Vec<(BTreeQueryKey, Vec<u8>)>, Error>) {
        proof {
            assert(transaction.cfs().contains_key(cf_id(cfs@[0].spec_name())));
            assert(transaction.cfs()[cf_id(cfs@[0].spec_name())] == seq![
                self.rows(transaction.cfs()[cf_id(object_cf.spec_name())]),
            ][0]);
        }
        BTreeIndex::query::<B>(self, query, transaction, object_cf, cfs)
    }
}

} // verus!
