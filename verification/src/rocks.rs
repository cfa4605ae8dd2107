//! What opening a database on an engine that keeps its column families on
//! disk has to decide: how the column families that are there are opened,
//! which are dropped and which are created.
//!
//! Nothing here touches the disk. The plan is made from the names of the
//! column families that were found, and whoever opens the engine carries it
//! out.

use vstd::prelude::*;
use vstd::utf8::encode_utf8;
use crate::builder::CfOptions;
use crate::errors::BuilderError;
use crate::names::{names_contain, names_distinct, same_name, NameMap};
use crate::store::cf_id;

verus! {

/// The identity of the column family with the stored name `name`.
pub open spec fn stored_id(name: String) -> Seq<u8> {
    encode_utf8(name@)
}

/// Whether the column family with identity `id` is one of `existing`.
pub open spec fn exists_among(existing: Seq<String>, id: Seq<u8>) -> bool {
    exists|i: int| 0 <= i < existing.len() && stored_id(#[trigger] existing[i]) == id
}

/// How a column family that exists is opened.
#[derive(Debug, PartialEq, Eq)]
pub struct Descriptor<O> {
    /// The name of the column family.
    pub name: String,
    /// The options to open it with, or nothing to keep those that it had.
    pub options: Option<O>,
}

/// A column family to create.
#[derive(Debug, PartialEq, Eq)]
pub struct Creation<O> {
    /// The name of the column family.
    pub name: &'static str,
    /// The options to create it with, or nothing for those of the engine.
    pub options: Option<O>,
}

/// What to do to open the database.
#[derive(Debug, PartialEq, Eq)]
pub struct OpenPlan<O> {
    /// How each column family that exists is opened, in the order in which
    /// they were found.
    pub descriptors: Vec<Descriptor<O>>,
    /// The column families to drop once the engine is open.
    pub drop: Vec<String>,
    /// The column families to create then, in the order in which they were
    /// declared.
    pub create: Vec<Creation<O>>,
}

/// The positions in `names` of the column families that are not among
/// `existing`, in ascending order.
pub open spec fn missing(names: Seq<&'static str>, existing: Seq<String>) -> Seq<int>
    decreases names.len(),
{
    if names.len() == 0 {
        Seq::empty()
    } else if exists_among(existing, cf_id(names.last())) {
        missing(names.drop_last(), existing)
    } else {
        missing(names.drop_last(), existing).push(names.len() - 1)
    }
}

/// The positions in `existing` of the column families that `names` does not
/// hold, in ascending order.
pub open spec fn unknown(existing: Seq<String>, names: Seq<&'static str>) -> Seq<int>
    decreases existing.len(),
{
    if existing.len() == 0 {
        Seq::empty()
    } else if names_contain(names, stored_id(existing.last())) {
        unknown(existing.drop_last(), names)
    } else {
        unknown(existing.drop_last(), names).push(existing.len() - 1)
    }
}

/// The options that a column family to create gets from what was said
/// about it.
pub open spec fn creation_options<O>(said: CfOptions<O>) -> Option<O> {
    match said {
        CfOptions::Configured(options) => Some(options),
        _ => None,
    }
}

/// The options that the column family found at `i` is opened with: those
/// that it was given, where it was given some and was not found before.
pub open spec fn descriptor_options<O>(
    existing: Seq<String>,
    names: Seq<&'static str>,
    values: Seq<CfOptions<O>>,
    i: int,
) -> Option<O> {
    let id = stored_id(existing[i]);
    if names_contain(names, id) && !exists_among(existing.take(i), id) {
        creation_options(values[crate::names::name_position(names, id)])
    } else {
        None
    }
}

/// Whether the column family declared at `j` was told to keep the options
/// that it had, and is not there.
pub open spec fn reuse_on_missing<O>(
    existing: Seq<String>,
    names: Seq<&'static str>,
    values: Seq<CfOptions<O>>,
    j: int,
) -> bool {
    0 <= j < names.len() && values[j] is ReuseLast && !exists_among(existing, cf_id(names[j]))
}

/// The position of `name` among `existing`, if it is there.
pub fn find_stored(existing: &[String], name: &str) -> (r: Option<usize>)
    ensures
        r matches Some(i) ==> i < existing@.len() && stored_id(existing@[i as int]) == cf_id(name),
        r is None ==> !exists_among(existing@, cf_id(name)),
{
    let mut i: usize = 0;
    while i < existing.len()
        invariant
            i <= existing@.len(),
            forall|p: int| 0 <= p < i ==> stored_id(#[trigger] existing@[p]) != cf_id(name),
        decreases existing@.len() - i,
    {
        if same_name(existing[i].as_str(), name) {
            return Some(i);
        }
        i += 1;
    }
    None
}

/// The first column family of `cfs` that was told to keep the options that
/// it had and is not among `existing`, if there is one.
pub fn reuse_last_on_missing<O>(existing: &[String], cfs: &NameMap<CfOptions<O>>) -> (r: Option<
    &'static str,
>)
    ensures
        r is None <==> forall|j: int| !reuse_on_missing(existing@, cfs.names(), cfs.values(), j),
        r matches Some(cf) ==> exists|j: int|
            #[trigger] reuse_on_missing(existing@, cfs.names(), cfs.values(), j) && cfs.names()[j]
                == cf && forall|p: int|
                0 <= p < j ==> !reuse_on_missing(existing@, cfs.names(), cfs.values(), p),
{
    let n = cfs.len();
    let mut j: usize = 0;
    while j < n
        invariant
            j <= n,
            n == cfs.names().len(),
            n == cfs.values().len(),
            forall|p: int| 0 <= p < j ==> !reuse_on_missing(existing@, cfs.names(), cfs.values(), p),
        decreases n - j,
    {
        if matches!(cfs.value_at(j), CfOptions::ReuseLast) && find_stored(
            existing,
            cfs.name_at(j),
        ).is_none() {
            assert(reuse_on_missing(existing@, cfs.names(), cfs.values(), j as int));
            return Some(cfs.name_at(j));
        }
        j += 1;
    }
    None
}

/// Whether a plan can be made for opening a database that declares the
/// column families of `cfs` where `existing` are there: whether none that
/// is not there was told to keep the options that it had.
pub fn can_plan_open<O>(existing: &[String], cfs: &NameMap<CfOptions<O>>) -> (r: bool)
    ensures
        r == forall|j: int| !reuse_on_missing(existing@, cfs.names(), cfs.values(), j),
{
    reuse_last_on_missing(existing, cfs).is_none()
}

/// The plan for opening a database that declares the column families of
/// `cfs`, where the column families `existing` are there already.
///
/// A column family that is there is opened with the options that it was
/// given, or else with those that it had. One that nothing declares is
/// dropped where `drop_unknown_cfs` asks for it. One that is declared and
/// not there is created, with the options that it was given or else with
/// those of the engine; none of them may have been told to keep the options
/// that it had.
pub fn plan_open<O>(existing: &[String], cfs: NameMap<CfOptions<O>>, drop_unknown_cfs: bool) -> (plan:
    OpenPlan<O>)
    requires
        forall|j: int| !reuse_on_missing(existing@, cfs.names(), cfs.values(), j),
    ensures
        plan.descriptors@.len() == existing@.len(),
        forall|i: int|
            0 <= i < existing@.len() ==> {
                &&& (#[trigger] plan.descriptors@[i]).name@ == existing@[i]@
                &&& plan.descriptors@[i].options == descriptor_options(
                    existing@,
                    cfs.names(),
                    cfs.values(),
                    i,
                )
            },
        !drop_unknown_cfs ==> plan.drop@.len() == 0,
        drop_unknown_cfs ==> {
            &&& plan.drop@.len() == unknown(existing@, cfs.names()).len()
            &&& forall|q: int|
                0 <= q < plan.drop@.len() ==> (#[trigger] plan.drop@[q])@ == existing@[unknown(
                    existing@,
                    cfs.names(),
                )[q]]@
        },
        plan.create@.len() == missing(cfs.names(), existing@).len(),
        forall|q: int|
            0 <= q < plan.create@.len() ==> {
                &&& (#[trigger] plan.create@[q]).name == cfs.names()[missing(
                    cfs.names(),
                    existing@,
                )[q]]
                &&& plan.create@[q].options == creation_options(
                    cfs.values()[missing(cfs.names(), existing@)[q]],
                )
            },
{
    let (names, values) = cfs.into_parts();
    let ghost said = values@;
    // How each column family that is there is opened, and which are dropped.
    let mut values = values;
    let mut descriptors: Vec<Descriptor<O>> = Vec::new();
    let mut drop: Vec<String> = Vec::new();
    let mut i: usize = 0;
    assert(existing@.take(0) =~= Seq::empty());
    while i < existing.len()
        invariant
            i <= existing@.len(),
            names@ == cfs.names(),
            said == cfs.values(),
            names@.len() == said.len(),
            values@.len() == said.len(),
            names_distinct(names@),
            forall|p: int|
                0 <= p < names@.len() ==> (!exists_among(existing@.take(i as int), cf_id(names@[p]))
                    ==> #[trigger] values@[p] == said[p]) && (exists_among(
                    existing@.take(i as int),
                    cf_id(names@[p]),
                ) ==> values@[p] is ReuseLast),
            descriptors@.len() == i,
            forall|p: int|
                0 <= p < i ==> {
                    &&& (#[trigger] descriptors@[p]).name@ == existing@[p]@
                    &&& descriptors@[p].options == descriptor_options(existing@, names@, said, p)
                },
            !drop_unknown_cfs ==> drop@.len() == 0,
            drop_unknown_cfs ==> {
                &&& drop@.len() == unknown(existing@.take(i as int), names@).len()
                &&& forall|q: int|
                    0 <= q < drop@.len() ==> (#[trigger] drop@[q])@ == existing@[unknown(
                        existing@.take(i as int),
                        names@,
                    )[q]]@
                &&& forall|q: int|
                    0 <= q < drop@.len() ==> 0 <= #[trigger] unknown(
                        existing@.take(i as int),
                        names@,
                    )[q] < i
            },
        decreases existing@.len() - i,
    {
        let name = existing[i].clone();
        let ghost id = stored_id(existing@[i as int]);
        let ghost earlier = existing@.take(i as int);
        let ghost now = existing@.take(i + 1);
        proof {
            assert(now.drop_last() =~= earlier);
            assert(now.last() == existing@[i as int]);
            assert forall|other: Seq<u8>| exists_among(now, other) <==> exists_among(earlier, other)
                || other == id by {
                if exists_among(now, other) {
                    let p = choose|p: int| 0 <= p < now.len() && stored_id(#[trigger] now[p]) == other;
                    if p < i {
                        assert(stored_id(earlier[p]) == other);
                    }
                }
                if exists_among(earlier, other) {
                    let p = choose|p: int|
                        0 <= p < earlier.len() && stored_id(#[trigger] earlier[p]) == other;
                    assert(stored_id(now[p]) == other);
                }
                if other == id {
                    assert(stored_id(now[i as int]) == other);
                }
            }
        }
        let ghost values_before = values@;
        let stored = existing[i].as_str();
        assert(cf_id(stored) == id);
        let position = crate::names::find_name(names.as_slice(), stored);
        let options = match position {
            Some(p) => {
                proof {
                    crate::names::lemma_name_position(names@, p as int);
                }
                let mut taken: CfOptions<O> = CfOptions::ReuseLast;
                std::mem::swap(&mut values[p], &mut taken);
                match taken {
                    CfOptions::Configured(options) => Some(options),
                    _ => None,
                }
            },
            None => {
                if drop_unknown_cfs {
                    drop.push(existing[i].clone());
                }
                None
            },
        };
        proof {
            assert(options == descriptor_options(existing@, names@, said, i as int));
            assert forall|q: int| 0 <= q < names@.len() implies (!exists_among(
                now,
                cf_id(names@[q]),
            ) ==> #[trigger] values@[q] == said[q]) && (exists_among(now, cf_id(names@[q]))
                ==> values@[q] is ReuseLast) by {
                if position is Some && q == position.unwrap() as int {
                } else {
                    assert(values@[q] == values_before[q]);
                    if cf_id(names@[q]) == id {
                        if position is Some {
                            let p = position.unwrap() as int;
                            if q < p {
                                assert(cf_id(names@[q]) != cf_id(names@[p]));
                            } else {
                                assert(cf_id(names@[p]) != cf_id(names@[q]));
                            }
                        } else {
                            assert(names_contain(names@, id));
                        }
                    }
                }
            }
        }
        descriptors.push(Descriptor { name, options });
        i += 1;
    }
    proof {
        assert(existing@.take(i as int) =~= existing@);
    }
    // Which column families are created.
    let mut create: Vec<Creation<O>> = Vec::new();
    let ghost kept = values@;
    let mut rest_names = crate::names::reversed(names);
    let mut rest_values = crate::names::reversed(values);
    let ghost n = kept.len() as int;
    assert(cfs.names().take(0) =~= Seq::empty());
    while rest_names.len() > 0
        invariant
            n == cfs.names().len(),
            n == kept.len(),
            n == cfs.values().len(),
            rest_names@.len() == rest_values@.len(),
            rest_names@.len() <= n,
            forall|q: int|
                0 <= q < rest_names@.len() ==> #[trigger] rest_names@[q] == cfs.names()[n - 1 - q],
            forall|q: int| 0 <= q < rest_values@.len() ==> #[trigger] rest_values@[q] == kept[n - 1 - q],
            forall|p: int|
                0 <= p < n && !exists_among(existing@, cf_id(cfs.names()[p])) ==> #[trigger] kept[p]
                    == cfs.values()[p],
            create@.len() == missing(cfs.names().take(n - rest_names@.len()), existing@).len(),
            forall|q: int|
                0 <= q < create@.len() ==> {
                    &&& 0 <= #[trigger] missing(
                        cfs.names().take(n - rest_names@.len()),
                        existing@,
                    )[q] < n - rest_names@.len()
                    &&& create@[q].name == cfs.names()[missing(
                        cfs.names().take(n - rest_names@.len()),
                        existing@,
                    )[q]]
                    &&& create@[q].options == creation_options(
                        cfs.values()[missing(cfs.names().take(n - rest_names@.len()), existing@)[q]],
                    )
                },
        decreases rest_names@.len(),
    {
        let ghost p = n - rest_names@.len();
        let ghost earlier = cfs.names().take(p);
        let ghost now = cfs.names().take(p + 1);
        let name = rest_names.pop().unwrap();
        let value = rest_values.pop().unwrap();
        proof {
            assert(name == cfs.names()[p]);
            assert(value == kept[p]);
            assert(now.drop_last() =~= earlier);
            assert(now.last() == name);
        }
        if find_stored(existing, name).is_none() {
            let options = match value {
                CfOptions::Configured(options) => Some(options),
                _ => None,
            };
            create.push(Creation { name, options });
        }
    }
    proof {
        assert(cfs.names().take(n) =~= cfs.names());
    }
    OpenPlan { descriptors, drop, create }
}

/// What is needed to open an engine that keeps its column families on
/// disk: where, and with which options of the engine.
pub struct RocksDbBuilder<G, T> {
    path: String,
    global_opts: Option<G>,
    txn_db_opts: Option<T>,
}

impl<G, T> RocksDbBuilder<G, T> {
    /// Where the engine keeps its files.
    pub closed spec fn spec_path(&self) -> String {
        self.path
    }

    /// The options of the engine, where they were set.
    pub closed spec fn spec_global_opts(&self) -> Option<G> {
        self.global_opts
    }

    /// The options of the transactions of the engine, where they were set.
    pub closed spec fn spec_txn_db_opts(&self) -> Option<T> {
        self.txn_db_opts
    }

    /// A builder for the engine at `path`, with no options set.
    pub fn new(path: String) -> (b: Self)
        ensures
            b.spec_path() == path,
            b.spec_global_opts() is None,
            b.spec_txn_db_opts() is None,
    {
        RocksDbBuilder { path, global_opts: None, txn_db_opts: None }
    }

    /// Sets the options of the engine. They can be set once.
    pub fn global_opts(self, opts: G) -> (r: Result<Self, BuilderError>)
        ensures
            self.spec_global_opts() is Some ==> r == Err::<Self, BuilderError>(
                BuilderError::OptionSetTwice("global options"),
            ),
            self.spec_global_opts() is None ==> {
                &&& r matches Ok(b)
                &&& b.spec_global_opts() == Some(opts)
                &&& b.spec_path() == self.spec_path()
                &&& b.spec_txn_db_opts() == self.spec_txn_db_opts()
            },
    {
        if self.global_opts.is_some() {
            return Err(BuilderError::OptionSetTwice("global options"));
        }
        let mut b = self;
        b.global_opts = Some(opts);
        Ok(b)
    }

    /// Sets the options of the transactions of the engine. They can be set
    /// once.
    pub fn txn_db_opts(self, txn_db_opts: T) -> (r: Result<Self, BuilderError>)
        ensures
            self.spec_txn_db_opts() is Some ==> r == Err::<Self, BuilderError>(
                BuilderError::OptionSetTwice("TransactionDB options"),
            ),
            self.spec_txn_db_opts() is None ==> {
                &&& r matches Ok(b)
                &&& b.spec_txn_db_opts() == Some(txn_db_opts)
                &&& b.spec_path() == self.spec_path()
                &&& b.spec_global_opts() == self.spec_global_opts()
            },
    {
        if self.txn_db_opts.is_some() {
            return Err(BuilderError::OptionSetTwice("TransactionDB options"));
        }
        let mut b = self;
        b.txn_db_opts = Some(txn_db_opts);
        Ok(b)
    }

    /// Where the engine keeps its files, and the options that were set.
    pub fn into_parts(self) -> (parts: (String, Option<G>, Option<T>))
        ensures
            parts.0 == self.spec_path(),
            parts.1 == self.spec_global_opts(),
            parts.2 == self.spec_txn_db_opts(),
    {
        (self.path, self.global_opts, self.txn_db_opts)
    }
}

} // verus!
