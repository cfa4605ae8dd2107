//! The handles of the column families of a type of objects, and the order
//! in which they are handed to the storage engine.
//!
//! A record holds the handle of the column family of the objects and, for
//! each index, the handles of its column families. A transaction over
//! several records is opened over all their handles in one list: record by
//! record, in each the handle of the objects first, then those of each
//! index in turn.

use vstd::prelude::*;
use crate::backend::{handle_ids, handles_in_scope, handles_name, Backend, BackendCf};
use crate::datum::IndexedDatum;
use crate::indexer::cfs_hold;
use crate::names::{names_contain, reversed};
use crate::store::{cf_id, Cfs};

verus! {

/// The names of `handles`, in order.
pub open spec fn names_of<C: BackendCf>(handles: Seq<C>) -> Seq<&'static str> {
    Seq::new(handles.len(), |i: int| handles[i].spec_name())
}

/// The names of the borrowed `handles`, in order.
pub open spec fn borrowed_names_of<C: BackendCf>(handles: Seq<&C>) -> Seq<&'static str> {
    Seq::new(handles.len(), |i: int| handles[i].spec_name())
}

/// The names of the handles of `groups`, group by group.
pub open spec fn group_names<C: BackendCf>(groups: Seq<Seq<C>>) -> Seq<&'static str>
    decreases groups.len(),
{
    if groups.len() == 0 {
        Seq::empty()
    } else {
        group_names(groups.drop_last()) + names_of(groups.last())
    }
}

/// The identities of `names`.
pub open spec fn name_ids(names: Seq<&'static str>) -> Set<Seq<u8>> {
    Set::new(|id: Seq<u8>| names_contain(names, id))
}

/// The handles of the column families of a type of objects: the one that
/// holds the objects, and those of each index, in the order of the indexes.
#[verifier::reject_recursive_types(B)]
pub struct Cf<B: Backend> {
    datum_cf: B::Cf,
    indexes_cfs: Vec<Vec<B::Cf>>,
}

impl<B: Backend> Cf<B> {
    /// The handle of the column family that holds the objects.
    pub closed spec fn datum_handle(&self) -> B::Cf {
        self.datum_cf
    }

    /// The handles of the column families of each index.
    pub closed spec fn index_handles(&self) -> Seq<Seq<B::Cf>> {
        Seq::new(self.indexes_cfs@.len(), |i: int| self.indexes_cfs@[i]@)
    }

    /// The handles are those of the objects of `D` and of its indexes.
    pub open spec fn describes<D: IndexedDatum<B>>(&self) -> bool {
        &&& self.datum_handle().spec_name() == D::CF
        &&& self.index_handles().len() == D::INDEXES@.len()
        &&& forall|i: int|
            0 <= i < D::INDEXES@.len() ==> handles_name(
                #[trigger] self.index_handles()[i],
                D::INDEXES@[i].spec_cfs(),
            )
    }

    /// Every column family of the record exists in `state`.
    pub open spec fn exists_in(&self, state: Cfs) -> bool {
        &&& state.contains_key(cf_id(self.datum_handle().spec_name()))
        &&& forall|i: int|
            0 <= i < self.index_handles().len() ==> handles_in_scope(
                #[trigger] self.index_handles()[i],
                state,
            )
    }

    /// The names of the handles, in the order in which they are handed to
    /// the storage engine.
    pub open spec fn names(&self) -> Seq<&'static str> {
        seq![self.datum_handle().spec_name()] + group_names(self.index_handles())
    }

    /// The record of the handle `datum_cf` for the objects and of the
    /// handles `indexes_cfs` for the indexes.
    pub fn new(datum_cf: B::Cf, indexes_cfs: Vec<Vec<B::Cf>>) -> (cf: Self)
        ensures
            cf.datum_handle() == datum_cf,
            cf.index_handles() == Seq::new(indexes_cfs@.len(), |i: int| indexes_cfs@[i]@),
    {
        Cf { datum_cf, indexes_cfs }
    }

    /// The handle of the column family that holds the objects.
    pub fn datum_cf(&self) -> (r: &B::Cf)
        ensures
            *r == self.datum_handle(),
    {
        &self.datum_cf
    }

    /// The number of indexes.
    pub fn index_count(&self) -> (n: usize)
        ensures
            n == self.index_handles().len(),
    {
        self.indexes_cfs.len()
    }

    /// The handles of the column families of the index at `i`.
    pub fn index_cfs(&self, i: usize) -> (r: &[B::Cf])
        requires
            i < self.index_handles().len(),
        ensures
            r@ == self.index_handles()[i as int],
    {
        self.indexes_cfs[i].as_slice()
    }
}

/// The handles of the column families of a type of objects in the scope of
/// a transaction.
#[verifier::reject_recursive_types(B)]
pub struct TransactionCf<B: Backend> {
    datum_cf: B::TransactionCf,
    indexes_cfs: Vec<Vec<B::TransactionCf>>,
}

impl<B: Backend> TransactionCf<B> {
    /// The handle of the column family that holds the objects.
    pub closed spec fn datum_handle(&self) -> B::TransactionCf {
        self.datum_cf
    }

    /// The handles of the column families of each index.
    pub closed spec fn index_handles(&self) -> Seq<Seq<B::TransactionCf>> {
        Seq::new(self.indexes_cfs@.len(), |i: int| self.indexes_cfs@[i]@)
    }

    /// The identity of the column family that holds the objects.
    pub open spec fn datum_id(&self) -> Seq<u8> {
        cf_id(self.datum_handle().spec_name())
    }

    /// The handles are those of the objects of `D` and of its indexes.
    pub open spec fn describes<D: IndexedDatum<B>>(&self) -> bool {
        &&& self.datum_handle().spec_name() == D::CF
        &&& self.index_handles().len() == D::INDEXES@.len()
        &&& forall|i: int|
            0 <= i < D::INDEXES@.len() ==> handles_name(
                #[trigger] self.index_handles()[i],
                D::INDEXES@[i].spec_cfs(),
            )
    }

    /// The handles name, one for one, the column families that the handles
    /// of `cf` name.
    pub open spec fn mirrors(&self, cf: &Cf<B>) -> bool {
        &&& self.datum_handle().spec_name() == cf.datum_handle().spec_name()
        &&& self.index_handles().len() == cf.index_handles().len()
        &&& forall|i: int|
            0 <= i < self.index_handles().len() ==> names_of(#[trigger] self.index_handles()[i])
                == names_of(cf.index_handles()[i])
    }

    /// Every handle is in the scope of a transaction over `cfs`.
    pub open spec fn in_scope(&self, cfs: Cfs) -> bool {
        &&& cfs.contains_key(self.datum_id())
        &&& forall|i: int|
            0 <= i < self.index_handles().len() ==> handles_in_scope(
                #[trigger] self.index_handles()[i],
                cfs,
            )
    }

    /// The identities of all the column families of the record.
    pub open spec fn ids(&self) -> Set<Seq<u8>> {
        Set::new(
            |id: Seq<u8>|
                id == self.datum_id() || exists|i: int|
                    0 <= i < self.index_handles().len() && handle_ids(
                        #[trigger] self.index_handles()[i],
                    ).contains(id),
        )
    }

    /// No index shares a column family with the objects or with another
    /// index.
    pub open spec fn separate(&self) -> bool {
        &&& forall|i: int|
            0 <= i < self.index_handles().len() ==> !handle_ids(
                #[trigger] self.index_handles()[i],
            ).contains(self.datum_id())
        &&& forall|i: int, j: int|
            0 <= i < self.index_handles().len() && 0 <= j < self.index_handles().len() && i != j
                ==> handle_ids(#[trigger] self.index_handles()[i]).disjoint(
                handle_ids(#[trigger] self.index_handles()[j]),
            )
    }

    /// Index agreement: in `cfs`, every index of `D` holds the image of
    /// what the column family of the objects holds.
    pub open spec fn consistent<D: IndexedDatum<B>>(&self, cfs: Cfs) -> bool {
        forall|i: int|
            0 <= i < D::INDEXES@.len() ==> cfs_hold(
                cfs,
                #[trigger] self.index_handles()[i],
                D::INDEXES@[i].image(cfs[self.datum_id()]),
            )
    }

    /// The record of the handle `datum_cf` for the objects and of the
    /// handles `indexes_cfs` for the indexes.
    pub fn new(datum_cf: B::TransactionCf, indexes_cfs: Vec<Vec<B::TransactionCf>>) -> (cf: Self)
        ensures
            cf.datum_handle() == datum_cf,
            cf.index_handles() == Seq::new(indexes_cfs@.len(), |i: int| indexes_cfs@[i]@),
    {
        TransactionCf { datum_cf, indexes_cfs }
    }

    /// The handle of the column family that holds the objects.
    pub fn datum_cf(&self) -> (r: &B::TransactionCf)
        ensures
            *r == self.datum_handle(),
    {
        &self.datum_cf
    }

    /// The number of indexes.
    pub fn index_count(&self) -> (n: usize)
        ensures
            n == self.index_handles().len(),
    {
        self.indexes_cfs.len()
    }

    /// The handles of the column families of the index at `i`.
    pub fn index_cfs(&self, i: usize) -> (r: &[B::TransactionCf])
        requires
            i < self.index_handles().len(),
        ensures
            r@ == self.index_handles()[i as int],
    {
        self.indexes_cfs[i].as_slice()
    }

    /// A record that mirrors the record of the objects of `D` is one of
    /// the objects of `D` too.
    pub proof fn lemma_mirror_describes<D: IndexedDatum<B>>(&self, cf: &Cf<B>)
        requires
            self.mirrors(cf),
            cf.describes::<D>(),
        ensures
            self.describes::<D>(),
    {
        assert forall|i: int| 0 <= i < D::INDEXES@.len() implies handles_name(
            #[trigger] self.index_handles()[i],
            D::INDEXES@[i].spec_cfs(),
        ) by {
            let mine = self.index_handles()[i];
            let theirs = cf.index_handles()[i];
            assert(names_of(mine) == names_of(theirs));
            assert(handles_name(theirs, D::INDEXES@[i].spec_cfs()));
            assert forall|k: int| 0 <= k < mine.len() implies (#[trigger] mine[k]).spec_name()
                == D::INDEXES@[i].spec_cfs()[k] by {
                assert(names_of(mine)[k] == mine[k].spec_name());
                assert(names_of(theirs)[k] == theirs[k].spec_name());
            }
        }
    }
}

/// The names of the handles of `cfs`, record by record: the list that a
/// transaction over `cfs` is opened with.
pub open spec fn linear_names<B: Backend>(cfs: Seq<&Cf<B>>) -> Seq<&'static str>
    decreases cfs.len(),
{
    if cfs.len() == 0 {
        Seq::empty()
    } else {
        linear_names(cfs.drop_last()) + cfs.last().names()
    }
}

/// Where the names of the group at `j` stand among the names of `groups`.
pub proof fn lemma_group_names_at<C: BackendCf>(groups: Seq<Seq<C>>, j: int, k: int)
    requires
        0 <= j < groups.len(),
        0 <= k <= groups[j].len(),
    ensures
        group_names(groups.take(j)).len() + groups[j].len() <= group_names(groups).len(),
        k < groups[j].len() ==> group_names(groups)[group_names(groups.take(j)).len() + k]
            == groups[j][k].spec_name(),
        group_names(groups.take(j + 1)).len() == group_names(groups.take(j)).len()
            + groups[j].len(),
    decreases groups.len(),
{
    assert(groups.take(j + 1).drop_last() =~= groups.take(j));
    assert(groups.take(j + 1).last() == groups[j]);
    if j == groups.len() - 1 {
        assert(groups.take(j) =~= groups.drop_last());
        assert(groups.take(j + 1) =~= groups);
    } else {
        lemma_group_names_at(groups.drop_last(), j, k);
        assert(groups.drop_last().take(j) =~= groups.take(j));
        assert(groups.drop_last().take(j + 1) =~= groups.take(j + 1));
    }
}

/// Where the names of the record at `i` stand among the names of `cfs`.
pub proof fn lemma_linear_names_at<B: Backend>(cfs: Seq<&Cf<B>>, i: int, q: int)
    requires
        0 <= i < cfs.len(),
        0 <= q <= cfs[i].names().len(),
    ensures
        linear_names(cfs.take(i)).len() + cfs[i].names().len() <= linear_names(cfs).len(),
        q < cfs[i].names().len() ==> linear_names(cfs)[linear_names(cfs.take(i)).len() + q]
            == cfs[i].names()[q],
        linear_names(cfs.take(i + 1)).len() == linear_names(cfs.take(i)).len()
            + cfs[i].names().len(),
    decreases cfs.len(),
{
    assert(cfs.take(i + 1).drop_last() =~= cfs.take(i));
    assert(cfs.take(i + 1).last() == cfs[i]);
    if i == cfs.len() - 1 {
        assert(cfs.take(i) =~= cfs.drop_last());
        assert(cfs.take(i + 1) =~= cfs);
    } else {
        lemma_linear_names_at(cfs.drop_last(), i, q);
        assert(cfs.drop_last().take(i) =~= cfs.take(i));
        assert(cfs.drop_last().take(i + 1) =~= cfs.take(i + 1));
    }
}

/// The names of groups of handles that all exist in `state` name column
/// families of `state`.
pub proof fn lemma_group_names_within<C: BackendCf>(groups: Seq<Seq<C>>, state: Cfs)
    requires
        forall|j: int| 0 <= j < groups.len() ==> handles_in_scope(#[trigger] groups[j], state),
    ensures
        name_ids(group_names(groups)).subset_of(state.dom()),
    decreases groups.len(),
{
    if groups.len() > 0 {
        let front = groups.drop_last();
        assert forall|j: int| 0 <= j < front.len() implies handles_in_scope(
            #[trigger] front[j],
            state,
        ) by {
            assert(front[j] == groups[j]);
        }
        lemma_group_names_within(front, state);
        let names = group_names(groups);
        let before = group_names(front);
        assert forall|id: Seq<u8>| name_ids(names).contains(id) implies state.dom().contains(id) by {
            let p = crate::names::name_position(names, id);
            if p < before.len() {
                assert(cf_id(before[p]) == id);
                assert(name_ids(before).contains(id));
            } else {
                let k = p - before.len();
                assert(names[p] == groups.last()[k].spec_name());
                assert(handles_in_scope(groups[groups.len() - 1], state));
            }
        }
    }
}

/// The names of records that all exist in `state` name column families of
/// `state`.
pub proof fn lemma_linear_names_within<B: Backend>(cfs: Seq<&Cf<B>>, state: Cfs)
    requires
        forall|i: int| 0 <= i < cfs.len() ==> (#[trigger] cfs[i]).exists_in(state),
    ensures
        name_ids(linear_names(cfs)).subset_of(state.dom()),
    decreases cfs.len(),
{
    if cfs.len() > 0 {
        let front = cfs.drop_last();
        assert forall|i: int| 0 <= i < front.len() implies (#[trigger] front[i]).exists_in(
            state,
        ) by {
            assert(front[i] == cfs[i]);
        }
        lemma_linear_names_within(front, state);
        let last = cfs.last();
        assert(cfs[cfs.len() - 1].exists_in(state));
        lemma_group_names_within(last.index_handles(), state);
        let names = linear_names(cfs);
        let before = linear_names(front);
        assert forall|id: Seq<u8>| name_ids(names).contains(id) implies state.dom().contains(id) by {
            let p = crate::names::name_position(names, id);
            if p < before.len() {
                assert(cf_id(before[p]) == id);
                assert(name_ids(before).contains(id));
            } else {
                let q = p - before.len();
                assert(names[p] == last.names()[q]);
                if q > 0 {
                    assert(last.names()[q] == group_names(last.index_handles())[q - 1]);
                    assert(name_ids(group_names(last.index_handles())).contains(id));
                }
            }
        }
    }
}

/// The handles of `cfs` in one list, record by record: in each the handle
/// of the objects first, then those of each index in turn.
pub fn linearize<'a, B: Backend>(cfs: &[&'a Cf<B>]) -> (list: Vec<&'a B::Cf>)
    ensures
        borrowed_names_of(list@) == linear_names(cfs@),
{
    let mut list: Vec<&'a B::Cf> = Vec::new();
    let mut i: usize = 0;
    assert(cfs@.take(0) =~= Seq::empty());
    while i < cfs.len()
        invariant
            i <= cfs@.len(),
            borrowed_names_of(list@) =~= linear_names(cfs@.take(i as int)),
        decreases cfs@.len() - i,
    {
        let cf = cfs[i];
        let ghost groups = cf.index_handles();
        let ghost done = linear_names(cfs@.take(i as int));
        list.push(&cf.datum_cf);
        let mut j: usize = 0;
        assert(groups.take(0) =~= Seq::empty());
        while j < cf.indexes_cfs.len()
            invariant
                j <= cf.indexes_cfs@.len(),
                groups == cf.index_handles(),
                borrowed_names_of(list@) =~= done + seq![cf.datum_handle().spec_name()]
                    + group_names(groups.take(j as int)),
            decreases cf.indexes_cfs@.len() - j,
        {
            let group = &cf.indexes_cfs[j];
            let ghost before = done + seq![cf.datum_handle().spec_name()] + group_names(
                groups.take(j as int),
            );
            let mut k: usize = 0;
            while k < group.len()
                invariant
                    k <= group@.len(),
                    j < groups.len(),
                    group@ == groups[j as int],
                    borrowed_names_of(list@) =~= before + names_of(group@.take(k as int)),
                decreases group@.len() - k,
            {
                let ghost earlier = list@;
                list.push(&group[k]);
                assert(names_of(group@.take(k + 1)) =~= names_of(group@.take(k as int)).push(
                    group@[k as int].spec_name(),
                ));
                assert(borrowed_names_of(list@) =~= borrowed_names_of(earlier).push(
                    group@[k as int].spec_name(),
                ));
                k += 1;
            }
            proof {
                assert(group@.take(k as int) =~= group@);
                assert(groups.take(j + 1).drop_last() =~= groups.take(j as int));
                assert(groups.take(j + 1).last() == groups[j as int]);
            }
            j += 1;
        }
        proof {
            assert(groups.take(j as int) =~= groups);
            assert(cfs@.take(i + 1).drop_last() =~= cfs@.take(i as int));
            assert(cfs@.take(i + 1).last() == cfs@[i as int]);
        }
        i += 1;
    }
    assert(cfs@.take(i as int) =~= cfs@);
    list
}

/// Puts the handles that a transaction over `cfs` was opened with back into
/// records: one for each record of `cfs`, with the same shape.
pub fn regroup<B: Backend>(cfs: &[&Cf<B>], handles: Vec<B::TransactionCf>) -> (records: Vec<
    TransactionCf<B>,
>)
    requires
        names_of(handles@) == linear_names(cfs@),
    ensures
        records@.len() == cfs@.len(),
        forall|i: int| 0 <= i < cfs@.len() ==> (#[trigger] records@[i]).mirrors(cfs@[i]),
{
    let ghost all = handles@;
    let mut rest = reversed(handles);
    let mut records: Vec<TransactionCf<B>> = Vec::new();
    let mut i: usize = 0;
    assert(cfs@.take(0) =~= Seq::empty());
    while i < cfs.len()
        invariant
            i <= cfs@.len(),
            names_of(all) == linear_names(cfs@),
            rest@.len() <= all.len(),
            forall|q: int| 0 <= q < rest@.len() ==> #[trigger] rest@[q] == all[all.len() - 1 - q],
            all.len() - rest@.len() == linear_names(cfs@.take(i as int)).len(),
            records@.len() == i,
            forall|p: int| 0 <= p < i ==> (#[trigger] records@[p]).mirrors(cfs@[p]),
        decreases cfs@.len() - i,
    {
        let cf = cfs[i];
        let ghost groups = cf.index_handles();
        let ghost start = linear_names(cfs@.take(i as int)).len() as int;
        proof {
            lemma_linear_names_at(cfs@, i as int, 0);
            assert(names_of(all)[start] == all[start].spec_name());
        }
        let datum_cf = rest.pop().unwrap();
        let mut indexes_cfs: Vec<Vec<B::TransactionCf>> = Vec::new();
        let mut j: usize = 0;
        assert(groups.take(0) =~= Seq::empty());
        while j < cf.indexes_cfs.len()
            invariant
                j <= cf.indexes_cfs@.len(),
                i < cfs@.len(),
                cf == cfs@[i as int],
                groups == cf.index_handles(),
                names_of(all) == linear_names(cfs@),
                start == linear_names(cfs@.take(i as int)).len(),
                rest@.len() <= all.len(),
                forall|q: int|
                    0 <= q < rest@.len() ==> #[trigger] rest@[q] == all[all.len() - 1 - q],
                all.len() - rest@.len() == start + 1 + group_names(groups.take(j as int)).len(),
                indexes_cfs@.len() == j,
                forall|p: int|
                    0 <= p < j ==> names_of((#[trigger] indexes_cfs@[p])@) == names_of(groups[p]),
            decreases cf.indexes_cfs@.len() - j,
        {
            let group = &cf.indexes_cfs[j];
            let ghost gstart = group_names(groups.take(j as int)).len() as int;
            let mut taken: Vec<B::TransactionCf> = Vec::new();
            let mut k: usize = 0;
            while k < group.len()
                invariant
                    k <= group@.len(),
                    i < cfs@.len(),
                    j < groups.len(),
                    cf == cfs@[i as int],
                    groups == cf.index_handles(),
                    group@ == groups[j as int],
                    names_of(all) == linear_names(cfs@),
                    start == linear_names(cfs@.take(i as int)).len(),
                    gstart == group_names(groups.take(j as int)).len(),
                    rest@.len() <= all.len(),
                    forall|q: int|
                        0 <= q < rest@.len() ==> #[trigger] rest@[q] == all[all.len() - 1 - q],
                    all.len() - rest@.len() == start + 1 + gstart + k,
                    taken@.len() == k,
                    forall|p: int|
                        0 <= p < k ==> (#[trigger] taken@[p]).spec_name() == group@[p].spec_name(),
                decreases group@.len() - k,
            {
                proof {
                    lemma_group_names_at(groups, j as int, k as int);
                    lemma_linear_names_at(cfs@, i as int, 1 + gstart + k);
                    let p = start + 1 + gstart + k;
                    assert(names_of(all)[p] == all[p].spec_name());
                    assert(cf.names()[1 + gstart + k] == group_names(groups)[gstart + k]);
                }
                taken.push(rest.pop().unwrap());
                k += 1;
            }
            proof {
                lemma_group_names_at(groups, j as int, 0);
                assert(names_of(taken@) =~= names_of(groups[j as int]));
            }
            indexes_cfs.push(taken);
            j += 1;
        }
        proof {
            assert(groups.take(j as int) =~= groups);
            lemma_linear_names_at(cfs@, i as int, 0);
        }
        let record = TransactionCf { datum_cf, indexes_cfs };
        proof {
            assert(record.index_handles().len() == cf.index_handles().len());
            assert forall|p: int| 0 <= p < record.index_handles().len() implies names_of(
                #[trigger] record.index_handles()[p],
            ) == names_of(cf.index_handles()[p]) by {
                assert(record.index_handles()[p] == indexes_cfs@[p]@);
            }
            assert(record.mirrors(cf));
        }
        records.push(record);
        i += 1;
    }
    records
}

} // verus!
