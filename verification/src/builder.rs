//! The declaration of a database: its types of objects, their indexes, and
//! the options of their column families.
//!
//! Every name that is declared is checked when it is declared: none may
//! start with the reserved prefix, and none may be declared twice.

use vstd::prelude::*;
use crate::backend::{handle_ids, handles_in_scope, handles_name, Backend, BackendCf, Transaction};
use crate::datum::IndexedDatum;
use crate::db::{rebuild_in_transaction, rebuilt, Db};
use crate::errors::{BuilderError, Error};
use crate::handles::name_ids;
use crate::indexer::{cfs_hold, only_changed, Indexer};
use crate::mode::Mode;
use crate::names::{
    find_name, is_reserved, names_contain, names_distinct, spec_is_reserved, NameMap,
};
use crate::store::{cf_id, CfData, Cfs};

verus! {

/// What was said about the options of a column family.
#[derive(Debug, PartialEq, Eq)]
pub enum CfOptions<O> {
    /// Open it with these options.
    Configured(O),
    /// Open it with the options that it had.
    ReuseLast,
    /// Nothing was said.
    NotConfigured,
}

/// An index that may have to be rebuilt when the database is opened.
pub struct IndexRebuilder<R> {
    /// The name of the column family of the objects.
    pub datum_cf: &'static str,
    /// The names of the column families of the index.
    pub index_cfs: &'static [&'static str],
    /// The index.
    pub rebuilder: R,
}

impl<R> IndexRebuilder<R> {
    /// The record of the index `rebuilder`, with the column families
    /// `index_cfs`, of the objects kept in `datum_cf`.
    pub fn new(datum_cf: &'static str, index_cfs: &'static [&'static str], rebuilder: R) -> (r:
        Self)
        ensures
            r.datum_cf == datum_cf,
            r.index_cfs == index_cfs,
            r.rebuilder == rebuilder,
    {
        IndexRebuilder { datum_cf, index_cfs, rebuilder }
    }
}

impl<B: Backend> IndexRebuilder<&'static dyn Indexer<B>> {

    /// Makes the index the image of what `datum_cf` holds, within
    /// `transaction`.
    pub fn rebuild(
        &self,
        transaction: &mut B::Transaction,
        index_cfs: &[B::TransactionCf],
        datum_cf: &B::TransactionCf,
    ) -> (r: Result<(), Error>)
        requires
            handles_name(index_cfs@, self.rebuilder.spec_cfs()),
            handles_in_scope(index_cfs@, old(transaction).cfs()),
            old(transaction).cfs().contains_key(cf_id(datum_cf.spec_name())),
            !handle_ids(index_cfs@).contains(cf_id(datum_cf.spec_name())),
        ensures
            final(transaction).mode() == old(transaction).mode(),
            final(transaction).snapshot() == old(transaction).snapshot(),
            final(transaction).locks() == old(transaction).locks(),
            only_changed(old(transaction).cfs(), final(transaction).cfs(), index_cfs@),
            old(transaction).mode() != Mode::IndexRebuilding ==> {
                &&& r == Err::<(), Error>(
                    Error::InvalidTransactionMode {
                        expected: Mode::IndexRebuilding,
                        actual: old(transaction).mode(),
                    },
                )
                &&& final(transaction).cfs() == old(transaction).cfs()
            },
            r is Ok ==> cfs_hold(
                final(transaction).cfs(),
                index_cfs@,
                self.rebuilder.image(old(transaction).cfs()[cf_id(datum_cf.spec_name())]),
            ),
            (exists|k: Seq<u8>|
                old(transaction).cfs()[cf_id(datum_cf.spec_name())].contains_key(k)
                    && !self.rebuilder.accepts(
                    #[trigger] old(transaction).cfs()[cf_id(datum_cf.spec_name())][k],
                )) ==> r is Err,
            B::Transaction::reliable() && old(transaction).mode() == Mode::IndexRebuilding && (
            forall|k: Seq<u8>|
                old(transaction).cfs()[cf_id(datum_cf.spec_name())].contains_key(k)
                    ==> self.rebuilder.accepts(
                    #[trigger] old(transaction).cfs()[cf_id(datum_cf.spec_name())][k],
                )) ==> r is Ok,
    {
        self.rebuilder.rebuild(transaction, index_cfs, datum_cf)
    }

    /// Rebuilds the index in a transaction of its own on `backend`. An
    /// index that would keep its rows in the column family of its objects
    /// is refused.
    pub fn run(&self, backend: &mut B) -> (r: Result<(), Error>)
        ensures
            r is Err ==> final(backend).state() == old(backend).state(),
            names_contain(self.rebuilder.spec_cfs(), cf_id(self.datum_cf)) ==> r == Err::<(), Error>(
                Error::Builder(BuilderError::DuplicateCf(self.datum_cf)),
            ),
            r is Ok ==> rebuilt(
                self.rebuilder.spec_cfs(),
                self.rebuilder.image(old(backend).state()[cf_id(self.datum_cf)]),
                old(backend).state(),
                final(backend).state(),
            ),
            r is Ok ==> old(backend).state().contains_key(cf_id(self.datum_cf)),
            r is Ok ==> name_ids(self.rebuilder.spec_cfs()).subset_of(old(backend).state().dom()),
            !names_contain(self.rebuilder.spec_cfs(), cf_id(self.datum_cf)) && B::reliable()
                && B::Transaction::reliable() && old(backend).state().contains_key(
                cf_id(self.datum_cf),
            ) && name_ids(self.rebuilder.spec_cfs()).subset_of(old(backend).state().dom()) && (
            forall|k: Seq<u8>|
                old(backend).state()[cf_id(self.datum_cf)].contains_key(k)
                    ==> self.rebuilder.accepts(
                    #[trigger] old(backend).state()[cf_id(self.datum_cf)][k],
                )) ==> r is Ok,
    {
        let names = self.rebuilder.cfs();
        if find_name(names, self.datum_cf).is_some() {
            return Err(Error::Builder(BuilderError::DuplicateCf(self.datum_cf)));
        }
        rebuild_in_transaction(backend, self.rebuilder, self.datum_cf)
    }
}

/// Whether one of `names` is among `created`.
pub open spec fn any_created(created: Seq<&'static str>, names: Seq<&'static str>) -> bool {
    exists|j: int| 0 <= j < names.len() && names_contain(created, cf_id(#[trigger] names[j]))
}

/// Whether an index has to be rebuilt when the column families `created`
/// are new: whether the column family of its objects or one of its own is
/// among them.
pub open spec fn spec_needs_rebuild<R>(
    created: Seq<&'static str>,
    rebuilder: &IndexRebuilder<R>,
) -> bool {
    names_contain(created, cf_id(rebuilder.datum_cf)) || any_created(created, rebuilder.index_cfs@)
}

/// Whether an index has to be rebuilt when the column families `created`
/// are new.
pub fn needs_rebuild<R>(created: &[&'static str], rebuilder: &IndexRebuilder<R>) -> (r: bool)
    ensures
        r == spec_needs_rebuild(created@, rebuilder),
{
    if find_name(created, rebuilder.datum_cf).is_some() {
        return true;
    }
    let mut j: usize = 0;
    while j < rebuilder.index_cfs.len()
        invariant
            j <= rebuilder.index_cfs@.len(),
            forall|p: int|
                0 <= p < j ==> !names_contain(created@, cf_id(#[trigger] rebuilder.index_cfs@[p])),
        decreases rebuilder.index_cfs@.len() - j,
    {
        if find_name(created, rebuilder.index_cfs[j]).is_some() {
            return true;
        }
        j += 1;
    }
    false
}

/// The positions of the indexes of `rebuilders` that have to be rebuilt
/// when the column families `created` are new, in order.
pub fn rebuilders_to_run<R>(created: &[&'static str], rebuilders: &[IndexRebuilder<R>]) -> (r: Vec<
    usize,
>)
    ensures
        forall|p: int| 0 <= p < r@.len() ==> (#[trigger] r@[p]) < rebuilders@.len(),
        forall|p: int, q: int| 0 <= p < q < r@.len() ==> r@[p] < r@[q],
        forall|k: int|
            0 <= k < rebuilders@.len() ==> (spec_needs_rebuild(created@, &rebuilders@[k]) <==> exists|
                p: int,
            |
                0 <= p < r@.len() && #[trigger] r@[p] == k),
{
    let mut r: Vec<usize> = Vec::new();
    let mut k: usize = 0;
    while k < rebuilders.len()
        invariant
            k <= rebuilders@.len(),
            forall|p: int| 0 <= p < r@.len() ==> (#[trigger] r@[p]) < k,
            forall|p: int, q: int| 0 <= p < q < r@.len() ==> r@[p] < r@[q],
            forall|i: int|
                0 <= i < k ==> (spec_needs_rebuild(created@, &rebuilders@[i]) <==> exists|p: int|
                    0 <= p < r@.len() && #[trigger] r@[p] == i),
        decreases rebuilders@.len() - k,
    {
        let ghost before = r@;
        if needs_rebuild(created, &rebuilders[k]) {
            r.push(k);
            proof {
                assert forall|i: int| 0 <= i < k + 1 implies (spec_needs_rebuild(
                    created@,
                    &rebuilders@[i],
                ) <==> exists|p: int| 0 <= p < r@.len() && #[trigger] r@[p] == i) by {
                    if i < k {
                        if spec_needs_rebuild(created@, &rebuilders@[i]) {
                            let p = choose|p: int| 0 <= p < before.len() && #[trigger] before[p] == i;
                            assert(r@[p] == i);
                        }
                        if exists|p: int| 0 <= p < r@.len() && #[trigger] r@[p] == i {
                            let p = choose|p: int| 0 <= p < r@.len() && #[trigger] r@[p] == i;
                            assert(before[p] == i);
                        }
                    } else {
                        assert(r@[before.len() as int] == k);
                    }
                }
            }
        } else {
            proof {
                assert forall|i: int| 0 <= i < k + 1 implies (spec_needs_rebuild(
                    created@,
                    &rebuilders@[i],
                ) <==> exists|p: int| 0 <= p < r@.len() && #[trigger] r@[p] == i) by {
                    if i == k {
                        if exists|p: int| 0 <= p < r@.len() && #[trigger] r@[p] == i {
                            let p = choose|p: int| 0 <= p < r@.len() && #[trigger] r@[p] == i;
                            assert(r@[p] < k);
                        }
                    }
                }
            }
        }
        k += 1;
    }
    r
}

/// The column families `names` hold, in order, the contents `image`.
pub open spec fn names_hold(state: Cfs, names: Seq<&'static str>, image: Seq<CfData>) -> bool {
    &&& image.len() == names.len()
    &&& forall|j: int| 0 <= j < names.len() ==> state[cf_id(#[trigger] names[j])] == image[j]
}

/// The index at `k` agrees with its objects in `state`.
pub open spec fn agrees<B: Backend>(
    state: Cfs,
    rebuilders: Seq<IndexRebuilder<&'static dyn Indexer<B>>>,
    k: int,
) -> bool {
    names_hold(
        state,
        rebuilders[k].rebuilder.spec_cfs(),
        rebuilders[k].rebuilder.image(state[cf_id(rebuilders[k].datum_cf)]),
    )
}

/// No index keeps rows in a column family of another index or in the
/// column family of the objects of another index.
pub open spec fn separate_rebuilders<B: Backend>(
    rebuilders: Seq<IndexRebuilder<&'static dyn Indexer<B>>>,
) -> bool {
    forall|p: int, q: int|
        0 <= p < rebuilders.len() && 0 <= q < rebuilders.len() && p != q ==> {
            &&& name_ids((#[trigger] rebuilders[p]).rebuilder.spec_cfs()).disjoint(
                name_ids((#[trigger] rebuilders[q]).rebuilder.spec_cfs()),
            )
            &&& !names_contain(rebuilders[p].rebuilder.spec_cfs(), cf_id(rebuilders[q].datum_cf))
        }
}

/// Whether the rebuild of the index at `k` succeeds on a reliable engine
/// with the committed contents `state`: whether the column families of the
/// index and of its objects exist, the index keeps no rows in the column
/// family of its objects, and every object can be indexed.
pub open spec fn can_run<B: Backend>(
    state: Cfs,
    rebuilders: Seq<IndexRebuilder<&'static dyn Indexer<B>>>,
    k: int,
) -> bool {
    let rebuilder = rebuilders[k];
    &&& state.contains_key(cf_id(rebuilder.datum_cf))
    &&& name_ids(rebuilder.rebuilder.spec_cfs()).subset_of(state.dom())
    &&& !names_contain(rebuilder.rebuilder.spec_cfs(), cf_id(rebuilder.datum_cf))
    &&& forall|key: Seq<u8>|
        state[cf_id(rebuilder.datum_cf)].contains_key(key) ==> rebuilder.rebuilder.accepts(
            #[trigger] state[cf_id(rebuilder.datum_cf)][key],
        )
}

/// Whether a rebuild after opening with the new column families `created`
/// may have written to the column family `id`: whether it is one of an
/// index that had to be rebuilt.
pub open spec fn touched<B: Backend>(
    created: Seq<&'static str>,
    rebuilders: Seq<IndexRebuilder<&'static dyn Indexer<B>>>,
    id: Seq<u8>,
) -> bool {
    exists|k: int|
        0 <= k < rebuilders.len() && spec_needs_rebuild(created, &#[trigger] rebuilders[k])
            && names_contain(rebuilders[k].rebuilder.spec_cfs(), id)
}

/// Rebuilds, each in a transaction of its own and in the order of
/// `rebuilders`, the indexes that have to be rebuilt when the column
/// families `created` are new. It stops at the first rebuild that fails;
/// the rebuilds before it stay.
pub fn rebuild_created<B: Backend>(
    backend: &mut B,
    created: &[&'static str],
    rebuilders: &[IndexRebuilder<&'static dyn Indexer<B>>],
) -> (r: Result<(), Error>)
    requires
        forall|k: int|
            0 <= k < rebuilders@.len() ==> (#[trigger] rebuilders@[k]).index_cfs@
                == rebuilders@[k].rebuilder.spec_cfs(),
    ensures
        final(backend).state().dom() == old(backend).state().dom(),
        forall|id: Seq<u8>|
            old(backend).state().contains_key(id) && !touched::<B>(created@, rebuilders@, id)
                ==> #[trigger] final(backend).state()[id] == old(backend).state()[id],
        r is Ok && separate_rebuilders::<B>(rebuilders@) ==> forall|k: int|
            0 <= k < rebuilders@.len() && spec_needs_rebuild(created@, &rebuilders@[k])
                ==> #[trigger] agrees::<B>(final(backend).state(), rebuilders@, k),
        r matches Err(e) ==> e matches Error::Context { msg, .. } && msg == "Failed rebuilding index",
        B::reliable() && B::Transaction::reliable() && separate_rebuilders::<B>(rebuilders@) && (
        forall|k: int|
            0 <= k < rebuilders@.len() && spec_needs_rebuild(created@, &rebuilders@[k])
                ==> #[trigger] can_run::<B>(old(backend).state(), rebuilders@, k)) ==> r is Ok,
{
    let ghost initial = backend.state();
    let mut k: usize = 0;
    while k < rebuilders.len()
        invariant
            k <= rebuilders@.len(),
            initial == old(backend).state(),
            forall|p: int|
                0 <= p < rebuilders@.len() ==> (#[trigger] rebuilders@[p]).index_cfs@
                    == rebuilders@[p].rebuilder.spec_cfs(),
            backend.state().dom() == initial.dom(),
            forall|id: Seq<u8>|
                initial.contains_key(id) && !touched::<B>(created@, rebuilders@, id)
                    ==> #[trigger] backend.state()[id] == initial[id],
            separate_rebuilders::<B>(rebuilders@) ==> forall|p: int|
                0 <= p < k && spec_needs_rebuild(created@, &rebuilders@[p]) ==> #[trigger] agrees::<B>(
                    backend.state(),
                    rebuilders@,
                    p,
                ),
            forall|p: int|
                0 <= p < k && spec_needs_rebuild(created@, &#[trigger] rebuilders@[p]) ==> {
                    &&& initial.contains_key(cf_id(rebuilders@[p].datum_cf))
                    &&& name_ids(rebuilders@[p].rebuilder.spec_cfs()).subset_of(initial.dom())
                },
        decreases rebuilders@.len() - k,
    {
        if needs_rebuild(created, &rebuilders[k]) {
            let ghost before = backend.state();
            proof {
                if separate_rebuilders::<B>(rebuilders@) && can_run::<B>(
                    initial,
                    rebuilders@,
                    k as int,
                ) {
                    let id = cf_id(rebuilders@[k as int].datum_cf);
                    assert(!touched::<B>(created@, rebuilders@, id)) by {
                        if touched::<B>(created@, rebuilders@, id) {
                            let p = choose|p: int|
                                0 <= p < rebuilders@.len() && spec_needs_rebuild(
                                    created@,
                                    &#[trigger] rebuilders@[p],
                                ) && names_contain(rebuilders@[p].rebuilder.spec_cfs(), id);
                            assert(p != k);
                        }
                    }
                    assert(before[id] == initial[id]);
                }
            }
            match rebuilders[k].run(backend) {
                Ok(()) => {},
                Err(e) => {
                    return Err(Error::in_step("Failed rebuilding index", e));
                },
            }
            proof {
                let after = backend.state();
                let me = rebuilders@[k as int];
                let names = me.rebuilder.spec_cfs();
                assert(after.dom() =~= initial.dom());
                assert forall|id: Seq<u8>|
                    initial.contains_key(id) && !touched::<B>(created@, rebuilders@, id) implies #[trigger] after[id]
                    == initial[id] by {
                    assert(before.contains_key(id));
                    if names_contain(names, id) {
                        assert(spec_needs_rebuild(created@, &rebuilders@[k as int]));
                        assert(touched::<B>(created@, rebuilders@, id));
                    }
                }
                if separate_rebuilders::<B>(rebuilders@) {
                    assert(before.contains_key(cf_id(me.datum_cf)));
                    assert(after[cf_id(me.datum_cf)] == before[cf_id(me.datum_cf)]);
                    assert(agrees::<B>(after, rebuilders@, k as int));
                    assert forall|p: int|
                        0 <= p < k && spec_needs_rebuild(created@, &rebuilders@[p]) implies #[trigger] agrees::<
                        B,
                    >(after, rebuilders@, p) by {
                        let other = rebuilders@[p];
                        assert(agrees::<B>(before, rebuilders@, p));
                        assert(!names_contain(names, cf_id(other.datum_cf)));
                        assert(name_ids(other.rebuilder.spec_cfs()).disjoint(name_ids(names)));
                        lemma_agreement_kept::<B>(before, after, rebuilders@, p, k as int);
                    }
                }
            }
        }
        k += 1;
    }
    Ok(())
}

/// An index that agreed with its objects still does after another index
/// was rebuilt, where the two keep their rows apart.
proof fn lemma_agreement_kept<B: Backend>(
    before: Cfs,
    after: Cfs,
    rebuilders: Seq<IndexRebuilder<&'static dyn Indexer<B>>>,
    p: int,
    k: int,
)
    requires
        0 <= p < rebuilders.len(),
        0 <= k < rebuilders.len(),
        agrees::<B>(before, rebuilders, p),
        after.dom() == before.dom(),
        forall|id: Seq<u8>|
            before.contains_key(id) && !names_contain(rebuilders[k].rebuilder.spec_cfs(), id)
                ==> #[trigger] after[id] == before[id],
        !names_contain(rebuilders[k].rebuilder.spec_cfs(), cf_id(rebuilders[p].datum_cf)),
        name_ids(rebuilders[p].rebuilder.spec_cfs()).disjoint(
            name_ids(rebuilders[k].rebuilder.spec_cfs()),
        ),
        before.contains_key(cf_id(rebuilders[p].datum_cf)),
        name_ids(rebuilders[p].rebuilder.spec_cfs()).subset_of(before.dom()),
    ensures
        agrees::<B>(after, rebuilders, p),
{
    let names = rebuilders[p].rebuilder.spec_cfs();
    assert(after[cf_id(rebuilders[p].datum_cf)] == before[cf_id(rebuilders[p].datum_cf)]);
    assert forall|j: int| 0 <= j < names.len() implies after[cf_id(#[trigger] names[j])]
        == before[cf_id(names[j])] by {
        let id = cf_id(names[j]);
        assert(name_ids(names).contains(id));
        assert(!name_ids(rebuilders[k].rebuilder.spec_cfs()).contains(id));
    }
}

/// What the builder of a storage engine is given to open the engine with.
#[verifier::reject_recursive_types(B)]
pub struct BuilderConfig<B: Backend, O> {
    /// What was said about the options of each column family.
    pub cfs: NameMap<CfOptions<O>>,
    /// Whether column families that nothing declares are to be dropped.
    pub drop_unknown_cfs: bool,
    /// The indexes, in the order in which they were declared.
    pub index_rebuilders: Vec<IndexRebuilder<&'static dyn Indexer<B>>>,
}

/// The builder of a storage engine.
pub trait BackendBuilder: Sized {
    /// The storage engine that is built.
    type Target: Backend;

    /// The options of a column family.
    type CfOptions;

    /// Whether the builder succeeds on `config`, whatever else happens. A
    /// builder that does not say so makes no such promise.
    open spec fn succeeds(&self, config: &BuilderConfig<Self::Target, Self::CfOptions>) -> bool {
        false
    }

    /// Opens the storage engine with every column family of `config`, and
    /// rebuilds the indexes that are not known to agree with their objects.
    fn build(self, config: BuilderConfig<Self::Target, Self::CfOptions>) -> (r: Result<
        Self::Target,
        Error,
    >)
        ensures
            r matches Ok(backend) ==> name_ids(config.cfs.names()).subset_of(backend.state().dom()),
            self.succeeds(&config) ==> r is Ok,
    ;
}

/// What registering `names`, one after the other, makes of the names
/// `used`: each of `names` behind the last, unless one of them is reserved or
/// in use already, which is the misuse that is reported.
pub open spec fn registered(used: Seq<&'static str>, names: Seq<&'static str>) -> Result<
    Seq<&'static str>,
    BuilderError,
>
    decreases names.len(),
{
    if names.len() == 0 {
        Ok(used)
    } else if spec_is_reserved(cf_id(names[0])) {
        Err(BuilderError::ReservedCf(names[0]))
    } else if names_contain(used, cf_id(names[0])) {
        Err(BuilderError::DuplicateCf(names[0]))
    } else {
        registered(used.push(names[0]), names.drop_first())
    }
}

/// The names of the column families of `indexes`, index by index.
pub open spec fn index_names<B: Backend>(indexes: Seq<&'static dyn Indexer<B>>) -> Seq<
    &'static str,
>
    decreases indexes.len(),
{
    if indexes.len() == 0 {
        Seq::empty()
    } else {
        index_names(indexes.drop_last()) + indexes.last().spec_cfs()
    }
}

/// The names that the declaration of the objects of `D` needs: that of the
/// column family of the objects, then those of each index in turn.
pub open spec fn declared_names<B: Backend, D: IndexedDatum<B>>() -> Seq<&'static str> {
    seq![D::CF] + index_names::<B>(D::INDEXES@)
}

/// A reserved name is never registered.
pub proof fn lemma_reserved_is_rejected(used: Seq<&'static str>, names: Seq<&'static str>, i: int)
    requires
        0 <= i < names.len(),
        spec_is_reserved(cf_id(names[i])),
    ensures
        registered(used, names) is Err,
    decreases names.len(),
{
    if i > 0 && !spec_is_reserved(cf_id(names[0])) && !names_contain(used, cf_id(names[0])) {
        assert(names.drop_first()[i - 1] == names[i]);
        lemma_reserved_is_rejected(used.push(names[0]), names.drop_first(), i - 1);
    }
}

/// A name is never registered twice.
pub proof fn lemma_duplicate_is_rejected(
    used: Seq<&'static str>,
    names: Seq<&'static str>,
    i: int,
    j: int,
)
    requires
        0 <= i < j < names.len(),
        cf_id(names[i]) == cf_id(names[j]),
    ensures
        registered(used, names) is Err,
    decreases names.len(),
{
    if !spec_is_reserved(cf_id(names[0])) && !names_contain(used, cf_id(names[0])) {
        let rest = names.drop_first();
        let more = used.push(names[0]);
        assert(rest[j - 1] == names[j]);
        if i == 0 {
            assert(cf_id(more[used.len() as int]) == cf_id(names[j]));
            lemma_used_is_rejected(more, rest, j - 1);
        } else {
            assert(rest[i - 1] == names[i]);
            lemma_duplicate_is_rejected(more, rest, i - 1, j - 1);
        }
    }
}

/// A name that is in use is never registered again.
pub proof fn lemma_used_is_rejected(used: Seq<&'static str>, names: Seq<&'static str>, i: int)
    requires
        0 <= i < names.len(),
        names_contain(used, cf_id(names[i])),
    ensures
        registered(used, names) is Err,
    decreases names.len(),
{
    if i > 0 && !spec_is_reserved(cf_id(names[0])) && !names_contain(used, cf_id(names[0])) {
        let p = crate::names::name_position(used, cf_id(names[i]));
        assert(cf_id(used.push(names[0])[p]) == cf_id(names[i]));
        assert(names.drop_first()[i - 1] == names[i]);
        lemma_used_is_rejected(used.push(names[0]), names.drop_first(), i - 1);
    }
}

/// What has been registered is what was in use with the new names behind
/// it.
pub proof fn lemma_registered_appends(used: Seq<&'static str>, names: Seq<&'static str>)
    requires
        registered(used, names) is Ok,
    ensures
        registered(used, names) == Ok::<Seq<&'static str>, BuilderError>(used + names),
    decreases names.len(),
{
    if names.len() == 0 {
        assert(used + names =~= used);
    } else {
        lemma_registered_appends(used.push(names[0]), names.drop_first());
        assert(used.push(names[0]) + names.drop_first() =~= used + names);
    }
}

/// Registers `names` behind `used`.
fn register(used: &Vec<&'static str>, names: &[&'static str]) -> (r: Result<
    Vec<&'static str>,
    BuilderError,
>)
    ensures
        r matches Ok(all) ==> registered(used@, names@) == Ok::<Seq<&'static str>, BuilderError>(
            all@,
        ),
        r matches Err(e) ==> registered(used@, names@) == Err::<Seq<&'static str>, BuilderError>(e),
{
    let mut all: Vec<&'static str> = Vec::new();
    let mut c: usize = 0;
    while c < used.len()
        invariant
            c <= used@.len(),
            all@ == used@.take(c as int),
        decreases used@.len() - c,
    {
        all.push(used[c]);
        assert(used@.take(c + 1) =~= used@.take(c as int).push(used@[c as int]));
        c += 1;
    }
    assert(used@.take(c as int) =~= used@);
    let mut i: usize = 0;
    assert(names@.skip(0) =~= names@);
    while i < names.len()
        invariant
            i <= names@.len(),
            registered(used@, names@) == registered(all@, names@.skip(i as int)),
        decreases names@.len() - i,
    {
        let name = names[i];
        proof {
            assert(names@.skip(i as int)[0] == name);
            assert(names@.skip(i as int).drop_first() =~= names@.skip(i + 1));
        }
        if is_reserved(name) {
            return Err(BuilderError::ReservedCf(name));
        }
        if find_name(all.as_slice(), name).is_some() {
            return Err(BuilderError::DuplicateCf(name));
        }
        all.push(name);
        i += 1;
    }
    Ok(all)
}

/// The names that the declaration of the objects of `D` needs.
fn declared<B: Backend, D: IndexedDatum<B>>() -> (names: Vec<&'static str>)
    ensures
        names@ == declared_names::<B, D>(),
{
    let mut names: Vec<&'static str> = Vec::new();
    names.push(D::CF);
    let indexes = D::INDEXES;
    let mut i: usize = 0;
    assert(indexes@.take(0) =~= Seq::empty());
    while i < indexes.len()
        invariant
            i <= indexes@.len(),
            indexes == D::INDEXES,
            names@ =~= seq![D::CF] + index_names::<B>(indexes@.take(i as int)),
        decreases indexes@.len() - i,
    {
        let cfs = indexes[i].cfs();
        let ghost before = names@;
        let mut j: usize = 0;
        while j < cfs.len()
            invariant
                j <= cfs@.len(),
                names@ =~= before + cfs@.take(j as int),
            decreases cfs@.len() - j,
        {
            names.push(cfs[j]);
            assert(cfs@.take(j + 1) =~= cfs@.take(j as int).push(cfs@[j as int]));
            j += 1;
        }
        proof {
            assert(cfs@.take(j as int) =~= cfs@);
            assert(indexes@.take(i + 1).drop_last() =~= indexes@.take(i as int));
            assert(indexes@.take(i + 1).last() == indexes@[i as int]);
        }
        i += 1;
    }
    assert(indexes@.take(i as int) =~= indexes@);
    names
}

/// Whether `name` was given options of its own in `cfs`.
pub open spec fn has_options<O>(cfs: NameMap<CfOptions<O>>, name: &'static str) -> bool {
    cfs.has(cf_id(name)) && cfs.at(cf_id(name)) is Configured
}

/// The declaration of a database on the storage engine that `BB` builds.
#[verifier::reject_recursive_types(BB)]
pub struct Builder<BB: BackendBuilder> {
    builder: BB,
    config: BuilderConfig<BB::Target, BB::CfOptions>,
    used_cfs: Vec<&'static str>,
    require_all_cfs_configured: bool,
    allow_extra_cf_config: bool,
}

impl<BB: BackendBuilder> Builder<BB> {
    /// The builder of the storage engine.
    pub closed spec fn backend_builder(&self) -> BB {
        self.builder
    }

    /// What was said about the options of each column family.
    pub closed spec fn config_cfs(&self) -> NameMap<CfOptions<BB::CfOptions>> {
        self.config.cfs
    }

    /// Whether column families that nothing declares are to be dropped.
    pub closed spec fn drops_unknown_cfs(&self) -> bool {
        self.config.drop_unknown_cfs
    }

    /// The indexes that were declared, in order.
    pub closed spec fn rebuilders(&self) -> Seq<IndexRebuilder<&'static dyn Indexer<BB::Target>>> {
        self.config.index_rebuilders@
    }

    /// The names of the column families that were declared, in order.
    pub closed spec fn used_cfs(&self) -> Seq<&'static str> {
        self.used_cfs@
    }

    /// Whether every declared column family has to be given options.
    pub closed spec fn requires_all_cfs_configured(&self) -> bool {
        self.require_all_cfs_configured
    }

    /// Whether options may be given for column families that nothing
    /// declares.
    pub closed spec fn allows_extra_cf_config(&self) -> bool {
        self.allow_extra_cf_config
    }

    /// Two declarations say the same about names, options and indexes.
    pub open spec fn same_declarations(&self, other: &Self) -> bool {
        &&& self.config_cfs() == other.config_cfs()
        &&& self.rebuilders() == other.rebuilders()
        &&& self.used_cfs() == other.used_cfs()
    }

    /// Two declarations have the same switches.
    pub open spec fn same_switches(&self, other: &Self) -> bool {
        &&& self.drops_unknown_cfs() == other.drops_unknown_cfs()
        &&& self.requires_all_cfs_configured() == other.requires_all_cfs_configured()
        &&& self.allows_extra_cf_config() == other.allows_extra_cf_config()
    }

    /// A declaration of nothing, on the storage engine that `builder`
    /// builds.
    pub fn new(builder: BB) -> (b: Self)
        ensures
            b.backend_builder() == builder,
            b.config_cfs().names() == Seq::<&'static str>::empty(),
            b.rebuilders() == Seq::<IndexRebuilder<&'static dyn Indexer<BB::Target>>>::empty(),
            b.used_cfs() == Seq::<&'static str>::empty(),
            !b.drops_unknown_cfs(),
            !b.requires_all_cfs_configured(),
            !b.allows_extra_cf_config(),
    {
        Builder {
            builder,
            config: BuilderConfig {
                cfs: NameMap::new(),
                drop_unknown_cfs: false,
                index_rebuilders: Vec::new(),
            },
            used_cfs: Vec::new(),
            require_all_cfs_configured: false,
            allow_extra_cf_config: false,
        }
    }

    /// Lets `f` change the builder of the storage engine.
    pub fn backend_config<F: FnOnce(BB) -> BB>(self, f: F) -> (b: Self)
        requires
            call_requires(f, (self.backend_builder(),)),
        ensures
            call_ensures(f, (self.backend_builder(),), b.backend_builder()),
            b.same_declarations(&self),
            b.same_switches(&self),
    {
        let Builder { builder, config, used_cfs, require_all_cfs_configured, allow_extra_cf_config } =
            self;
        Builder {
            builder: f(builder),
            config,
            used_cfs,
            require_all_cfs_configured,
            allow_extra_cf_config,
        }
    }

    /// Asks that every declared column family be given options.
    pub fn require_all_cfs_configured(self) -> (b: Self)
        ensures
            b.requires_all_cfs_configured(),
            b.backend_builder() == self.backend_builder(),
            b.same_declarations(&self),
            b.drops_unknown_cfs() == self.drops_unknown_cfs(),
            b.allows_extra_cf_config() == self.allows_extra_cf_config(),
    {
        let mut b = self;
        b.require_all_cfs_configured = true;
        b
    }

    /// Allows options for column families that nothing declares; they are
    /// left aside.
    pub fn allow_extra_cf_config(self) -> (b: Self)
        ensures
            b.allows_extra_cf_config(),
            b.backend_builder() == self.backend_builder(),
            b.same_declarations(&self),
            b.drops_unknown_cfs() == self.drops_unknown_cfs(),
            b.requires_all_cfs_configured() == self.requires_all_cfs_configured(),
    {
        let mut b = self;
        b.allow_extra_cf_config = true;
        b
    }

    /// Asks that column families that nothing declares be dropped when the
    /// database is opened.
    pub fn drop_unknown_cfs(self) -> (b: Self)
        ensures
            b.drops_unknown_cfs(),
            b.backend_builder() == self.backend_builder(),
            b.same_declarations(&self),
            b.allows_extra_cf_config() == self.allows_extra_cf_config(),
            b.requires_all_cfs_configured() == self.requires_all_cfs_configured(),
    {
        let mut b = self;
        b.config.drop_unknown_cfs = true;
        b
    }

    /// Says what `said` about the options of the column family `cf`.
    fn configure(self, cf: &'static str, said: CfOptions<BB::CfOptions>) -> (r: Result<
        Self,
        BuilderError,
    >)
        ensures
            spec_is_reserved(cf_id(cf)) ==> r == Err::<Self, BuilderError>(
                BuilderError::ReservedCf(cf),
            ),
            !spec_is_reserved(cf_id(cf)) && self.config_cfs().has(cf_id(cf)) ==> r == Err::<
                Self,
                BuilderError,
            >(BuilderError::ConfiguredTwice(cf)),
            !spec_is_reserved(cf_id(cf)) && !self.config_cfs().has(cf_id(cf)) ==> {
                &&& r matches Ok(b)
                &&& b.config_cfs().names() == self.config_cfs().names().push(cf)
                &&& b.config_cfs().values() == self.config_cfs().values().push(said)
                &&& b.backend_builder() == self.backend_builder()
                &&& b.rebuilders() == self.rebuilders()
                &&& b.used_cfs() == self.used_cfs()
                &&& b.same_switches(&self)
            },
    {
        if is_reserved(cf) {
            return Err(BuilderError::ReservedCf(cf));
        }
        let mut b = self;
        match b.config.cfs.insert(cf, said) {
            Ok(()) => Ok(b),
            Err(_) => Err(BuilderError::ConfiguredTwice(cf)),
        }
    }

    /// Gives the column family `cf` the options `options`.
    pub fn cf_options(self, cf: &'static str, options: BB::CfOptions) -> (r: Result<
        Self,
        BuilderError,
    >)
        ensures
            spec_is_reserved(cf_id(cf)) ==> r == Err::<Self, BuilderError>(
                BuilderError::ReservedCf(cf),
            ),
            !spec_is_reserved(cf_id(cf)) && self.config_cfs().has(cf_id(cf)) ==> r == Err::<
                Self,
                BuilderError,
            >(BuilderError::ConfiguredTwice(cf)),
            !spec_is_reserved(cf_id(cf)) && !self.config_cfs().has(cf_id(cf)) ==> {
                &&& r matches Ok(b)
                &&& b.config_cfs().names() == self.config_cfs().names().push(cf)
                &&& b.config_cfs().values() == self.config_cfs().values().push(
                    CfOptions::Configured(options),
                )
                &&& b.backend_builder() == self.backend_builder()
                &&& b.rebuilders() == self.rebuilders()
                &&& b.used_cfs() == self.used_cfs()
                &&& b.same_switches(&self)
            },
    {
        self.configure(cf, CfOptions::Configured(options))
    }

    /// Lets the column family `cf` keep the options that it had.
    pub fn cf_options_reuse_last(self, cf: &'static str) -> (r: Result<Self, BuilderError>)
        ensures
            spec_is_reserved(cf_id(cf)) ==> r == Err::<Self, BuilderError>(
                BuilderError::ReservedCf(cf),
            ),
            !spec_is_reserved(cf_id(cf)) && self.config_cfs().has(cf_id(cf)) ==> r == Err::<
                Self,
                BuilderError,
            >(BuilderError::ConfiguredTwice(cf)),
            !spec_is_reserved(cf_id(cf)) && !self.config_cfs().has(cf_id(cf)) ==> {
                &&& r matches Ok(b)
                &&& b.config_cfs().names() == self.config_cfs().names().push(cf)
                &&& b.config_cfs().values() == self.config_cfs().values().push(
                    CfOptions::<BB::CfOptions>::ReuseLast,
                )
                &&& b.backend_builder() == self.backend_builder()
                &&& b.rebuilders() == self.rebuilders()
                &&& b.used_cfs() == self.used_cfs()
                &&& b.same_switches(&self)
            },
    {
        self.configure(cf, CfOptions::ReuseLast)
    }

    /// What is wrong with declaring the objects of `D` now, if anything: the
    /// first of their column families, in the order in which they are
    /// registered, that is reserved or in use already.
    pub fn datum_misuse<D: IndexedDatum<BB::Target>>(&self) -> (r: Option<BuilderError>)
        ensures
            r == (match registered(self.used_cfs(), declared_names::<BB::Target, D>()) {
                Ok(_) => None::<BuilderError>,
                Err(e) => Some(e),
            }),
    {
        let names = declared::<BB::Target, D>();
        match register(&self.used_cfs, names.as_slice()) {
            Ok(_) => None,
            Err(e) => Some(e),
        }
    }

    /// Whether the objects of `D` can be declared now: whether none of
    /// their column families is reserved or in use already.
    pub fn can_declare<D: IndexedDatum<BB::Target>>(&self) -> (r: bool)
        ensures
            r == (registered(self.used_cfs(), declared_names::<BB::Target, D>()) is Ok),
    {
        self.datum_misuse::<D>().is_none()
    }

    /// Declares the objects of `D` and their indexes: registers the column
    /// family of the objects and those of each index, and notes each index
    /// as one that may have to be rebuilt. None of the column families may
    /// be reserved or in use already.
    pub fn datum<D: IndexedDatum<BB::Target>>(self) -> (b: Self)
        requires
            registered(self.used_cfs(), declared_names::<BB::Target, D>()) is Ok,
        ensures
            registered(self.used_cfs(), declared_names::<BB::Target, D>()) == Ok::<
                Seq<&'static str>,
                BuilderError,
            >(b.used_cfs()),
            b.used_cfs() == self.used_cfs() + declared_names::<BB::Target, D>(),
            b.rebuilders().len() == self.rebuilders().len() + D::INDEXES@.len(),
            forall|i: int|
                0 <= i < self.rebuilders().len() ==> b.rebuilders()[i] == self.rebuilders()[i],
            forall|i: int|
                0 <= i < D::INDEXES@.len() ==> {
                    &&& (#[trigger] b.rebuilders()[self.rebuilders().len() + i]).datum_cf == D::CF
                    &&& b.rebuilders()[self.rebuilders().len() + i].rebuilder == D::INDEXES@[i]
                    &&& b.rebuilders()[self.rebuilders().len() + i].index_cfs@
                        == D::INDEXES@[i].spec_cfs()
                },
            b.backend_builder() == self.backend_builder(),
            b.config_cfs() == self.config_cfs(),
            b.same_switches(&self),
    {
        let names = declared::<BB::Target, D>();
        let all = register(&self.used_cfs, names.as_slice()).unwrap();
        proof {
            lemma_registered_appends(self.used_cfs@, names@);
        }
        let mut b = self;
        b.used_cfs = all;
        let indexes = D::INDEXES;
        let ghost before = b.config.index_rebuilders@;
        let mut i: usize = 0;
        while i < indexes.len()
            invariant
                i <= indexes@.len(),
                indexes == D::INDEXES,
                b.builder == self.builder,
                b.config.cfs == self.config.cfs,
                b.config.drop_unknown_cfs == self.config.drop_unknown_cfs,
                b.require_all_cfs_configured == self.require_all_cfs_configured,
                b.allow_extra_cf_config == self.allow_extra_cf_config,
                b.used_cfs@ == self.used_cfs@ + names@,
                before == self.config.index_rebuilders@,
                b.config.index_rebuilders@.len() == before.len() + i,
                forall|p: int| 0 <= p < before.len() ==> b.config.index_rebuilders@[p] == before[p],
                forall|p: int|
                    0 <= p < i ==> {
                        &&& (#[trigger] b.config.index_rebuilders@[before.len() + p]).datum_cf
                            == D::CF
                        &&& b.config.index_rebuilders@[before.len() + p].rebuilder == indexes@[p]
                        &&& b.config.index_rebuilders@[before.len() + p].index_cfs@
                            == indexes@[p].spec_cfs()
                    },
            decreases indexes@.len() - i,
        {
            let index_cfs = indexes[i].cfs();
            let rebuilder = IndexRebuilder::new(D::CF, index_cfs, indexes[i]);
            b.config.index_rebuilders.push(rebuilder);
            i += 1;
        }
        b
    }
}

impl<BB: BackendBuilder> Builder<BB> {
    /// Whether the declared column family at `i` was not given options of
    /// its own.
    pub open spec fn unconfigured(&self, i: int) -> bool {
        0 <= i < self.used_cfs().len() && !has_options(self.config_cfs(), self.used_cfs()[i])
    }

    /// Whether the options at `j` are for a column family that nothing
    /// declares.
    pub open spec fn unused(&self, j: int) -> bool {
        0 <= j < self.config_cfs().names().len() && !names_contain(
            self.used_cfs(),
            cf_id(self.config_cfs().names()[j]),
        )
    }

    /// Whether the declaration is one that can be built: every declared
    /// column family was given options where that was asked for, and no
    /// options are left over unless that was allowed.
    pub open spec fn valid(&self) -> bool {
        &&& self.requires_all_cfs_configured() ==> forall|i: int| !self.unconfigured(i)
        &&& !self.allows_extra_cf_config() ==> forall|j: int| !self.unused(j)
    }

    /// Whether `config` is what the builder of the storage engine is given
    /// for this declaration: the declared column families and no others,
    /// each with what was said about its options, and the declared indexes.
    pub open spec fn is_final_config(
        &self,
        config: &BuilderConfig<BB::Target, BB::CfOptions>,
    ) -> bool {
        &&& config.drop_unknown_cfs == self.drops_unknown_cfs()
        &&& config.index_rebuilders@ == self.rebuilders()
        &&& forall|id: Seq<u8>| config.cfs.has(id) <==> names_contain(self.used_cfs(), id)
        &&& forall|id: Seq<u8>|
            config.cfs.has(id) ==> #[trigger] config.cfs.at(id) == (if self.config_cfs().has(id) {
                self.config_cfs().at(id)
            } else {
                CfOptions::NotConfigured
            })
    }

    /// What is wrong with the declaration, if anything: the first declared
    /// column family without options of its own, where every one has to
    /// have them; else the first options for a column family that nothing
    /// declares, where that is not allowed.
    pub fn build_misuse(&self) -> (r: Option<BuilderError>)
        ensures
            r is None <==> self.valid(),
            self.requires_all_cfs_configured() && (exists|i: int| self.unconfigured(i)) ==> {
                &&& r matches Some(BuilderError::NotConfigured(cf))
                &&& exists|i: int|
                    #[trigger] self.unconfigured(i) && self.used_cfs()[i] == cf && forall|p: int|
                        0 <= p < i ==> !self.unconfigured(p)
            },
            !(self.requires_all_cfs_configured() && (exists|i: int| self.unconfigured(i)))
                && !self.allows_extra_cf_config() && (exists|j: int| self.unused(j)) ==> {
                &&& r matches Some(BuilderError::UnusedConfig(cf))
                &&& exists|j: int|
                    #[trigger] self.unused(j) && self.config_cfs().names()[j] == cf && forall|p: int|
                        0 <= p < j ==> !self.unused(p)
            },
    {
        let n = self.config.cfs.len();
        if self.require_all_cfs_configured {
            let mut i: usize = 0;
            while i < self.used_cfs.len()
                invariant
                    i <= self.used_cfs@.len(),
                    self.requires_all_cfs_configured(),
                    forall|p: int| 0 <= p < i ==> !self.unconfigured(p),
                decreases self.used_cfs@.len() - i,
            {
                let name = self.used_cfs[i];
                let configured = match self.config.cfs.find(name) {
                    Some(p) => matches!(self.config.cfs.value_at(p), CfOptions::Configured(_)),
                    None => false,
                };
                if !configured {
                    assert(self.unconfigured(i as int));
                    return Some(BuilderError::NotConfigured(name));
                }
                i += 1;
            }
        }
        if !self.allow_extra_cf_config {
            let mut j: usize = 0;
            while j < n
                invariant
                    j <= n,
                    n == self.config.cfs.names().len(),
                    !self.allows_extra_cf_config(),
                    self.requires_all_cfs_configured() ==> forall|i: int| !self.unconfigured(i),
                    forall|p: int| 0 <= p < j ==> !self.unused(p),
                decreases n - j,
            {
                let name = self.config.cfs.name_at(j);
                if find_name(self.used_cfs.as_slice(), name).is_none() {
                    assert(self.unused(j as int));
                    return Some(BuilderError::UnusedConfig(name));
                }
                j += 1;
            }
        }
        assert(self.valid());
        None
    }

    /// Whether the declaration is one that can be built.
    pub fn is_valid(&self) -> (r: bool)
        ensures
            r == self.valid(),
    {
        self.build_misuse().is_none()
    }

    /// Opens the database: hands the builder of the storage engine the
    /// declared column families, each with what was said about its options,
    /// and the declared indexes, and wraps the engine that it builds. The
    /// declaration has to be one that can be built.
    pub fn build(self) -> (r: Result<Db<BB::Target>, Error>)
        requires
            self.valid(),
        ensures
            r matches Ok(db) ==> exists|config: BuilderConfig<BB::Target, BB::CfOptions>|
                #[trigger] self.is_final_config(&config) && call_ensures(
                    <BB as BackendBuilder>::build,
                    (self.backend_builder(), config),
                    Ok::<BB::Target, Error>(db.backend()),
                ),
            r matches Err(e) ==> exists|config: BuilderConfig<BB::Target, BB::CfOptions>|
                #[trigger] self.is_final_config(&config) && call_ensures(
                    <BB as BackendBuilder>::build,
                    (self.backend_builder(), config),
                    Err::<BB::Target, Error>(e),
                ),
            r matches Ok(db) ==> name_ids(self.used_cfs()).subset_of(db.state().dom()),
            (forall|config: BuilderConfig<BB::Target, BB::CfOptions>|
                #[trigger] self.is_final_config(&config) ==> self.backend_builder().succeeds(&config))
                ==> r is Ok,
    {
        let Builder { builder, config, used_cfs, require_all_cfs_configured, allow_extra_cf_config } =
            self;
        let BuilderConfig { cfs, drop_unknown_cfs, index_rebuilders } = config;
        let ghost declared = cfs;
        let _ = cfs.len();
        let kept = if allow_extra_cf_config {
            cfs.retain_names(used_cfs.as_slice())
        } else {
            cfs
        };
        let _ = kept.len();
        proof {
            assert forall|id: Seq<u8>| kept.has(id) implies declared.has(id) && names_contain(
                used_cfs@,
                id,
            ) && kept.at(id) == declared.at(id) by {
                if !allow_extra_cf_config {
                    let p = crate::names::name_position(declared.names(), id);
                    assert(!self.unused(p));
                }
            }
            assert forall|id: Seq<u8>| declared.has(id) && names_contain(used_cfs@, id) implies kept.has(
                id,
            ) by {}
        }
        let mut cfs = kept;
        let mut i: usize = 0;
        assert(used_cfs@.take(0) =~= Seq::empty());
        while i < used_cfs.len()
            invariant
                i <= used_cfs@.len(),
                cfs.names().len() == cfs.values().len(),
                names_distinct(cfs.names()),
                forall|id: Seq<u8>|
                    cfs.has(id) <==> kept.has(id) || names_contain(used_cfs@.take(i as int), id),
                forall|id: Seq<u8>|
                    cfs.has(id) ==> #[trigger] cfs.at(id) == (if kept.has(id) {
                        kept.at(id)
                    } else {
                        CfOptions::NotConfigured
                    }),
            decreases used_cfs@.len() - i,
        {
            let name = used_cfs[i];
            let ghost before = cfs;
            let r = cfs.insert(name, CfOptions::NotConfigured);
            proof {
                let earlier = used_cfs@.take(i as int);
                let now = used_cfs@.take(i + 1);
                assert(now =~= earlier.push(name));
                if r is Ok {
                    crate::names::lemma_name_pushed(
                        before.names(),
                        before.values(),
                        name,
                        CfOptions::<BB::CfOptions>::NotConfigured,
                    );
                }
                assert forall|id: Seq<u8>| cfs.has(id) <==> before.has(id) || id == cf_id(name) by {}
                assert forall|id: Seq<u8>| names_contain(now, id) <==> names_contain(earlier, id)
                    || id == cf_id(name) by {
                    if names_contain(now, id) {
                        let p = crate::names::name_position(now, id);
                        if p < i {
                            assert(cf_id(earlier[p]) == id);
                        }
                    }
                    if names_contain(earlier, id) {
                        let p = crate::names::name_position(earlier, id);
                        assert(cf_id(now[p]) == id);
                    }
                    if id == cf_id(name) {
                        assert(cf_id(now[i as int]) == id);
                    }
                }
                assert forall|id: Seq<u8>| cfs.has(id) implies #[trigger] cfs.at(id) == (if kept.has(
                    id,
                ) {
                    kept.at(id)
                } else {
                    CfOptions::NotConfigured
                }) by {
                    if before.has(id) {
                        if r is Ok {
                            assert(cfs.at(id) == before.at(id));
                        }
                    } else {
                        assert(id == cf_id(name));
                        assert(r is Ok);
                    }
                }
            }
            i += 1;
        }
        assert(used_cfs@.take(i as int) =~= used_cfs@);
        let config = BuilderConfig { cfs, drop_unknown_cfs, index_rebuilders };
        proof {
            assert(self.is_final_config(&config));
            assert forall|id: Seq<u8>| name_ids(used_cfs@).contains(id) implies name_ids(
                config.cfs.names(),
            ).contains(id) by {
                assert(config.cfs.has(id));
            }
        }
        let ghost handed = config;
        let built = builder.build(config);
        assert(call_ensures(<BB as BackendBuilder>::build, (builder, handed), built));
        match built {
            Ok(backend) => Ok(Db::new(backend)),
            Err(e) => Err(e),
        }
    }
}

} // verus!
