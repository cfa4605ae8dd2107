//! Values kept under the names of column families.
//!
//! Two names are the same where their bytes are; nothing is kept twice
//! under one name, and what was put in first stays first.

use vstd::prelude::*;
use vstd::string::StringSliceAdditionalSpecFns;
use crate::bytes;
use crate::store::cf_id;

verus! {

/// The prefix of the names that are kept for internal use.
pub const SAKUHIKI_PREFIX: &'static str = "__sakuhiki";

/// Whether the name with the bytes `name` is kept for internal use: whether
/// it begins with the reserved prefix.
pub open spec fn spec_is_reserved(name: Seq<u8>) -> bool {
    SAKUHIKI_PREFIX.spec_bytes().is_prefix_of(name)
}

/// Whether `name` is kept for internal use.
pub fn is_reserved(name: &str) -> (r: bool)
    ensures
        r == spec_is_reserved(cf_id(name)),
{
    bytes::starts_with(name.as_bytes(), SAKUHIKI_PREFIX.as_bytes())
}

/// No two of `names` are the same.
pub open spec fn names_distinct(names: Seq<&'static str>) -> bool {
    forall|i: int, j: int| 0 <= i < j < names.len() ==> cf_id(#[trigger] names[i]) != cf_id(#[trigger] names[j])
}

/// Whether `name` is one of `names`.
pub open spec fn names_contain(names: Seq<&'static str>, id: Seq<u8>) -> bool {
    exists|i: int| 0 <= i < names.len() && cf_id(#[trigger] names[i]) == id
}

/// A position at which `names` holds the name with identity `id`.
pub open spec fn name_position(names: Seq<&'static str>, id: Seq<u8>) -> int {
    choose|i: int| 0 <= i < names.len() && cf_id(#[trigger] names[i]) == id
}

/// Among distinct names, a name is found at its own position only.
pub proof fn lemma_name_position(names: Seq<&'static str>, i: int)
    requires
        names_distinct(names),
        0 <= i < names.len(),
    ensures
        names_contain(names, cf_id(names[i])),
        name_position(names, cf_id(names[i])) == i,
{
    let j = name_position(names, cf_id(names[i]));
    if j < i {
        assert(cf_id(names[j]) != cf_id(names[i]));
    } else if i < j {
        assert(cf_id(names[i]) != cf_id(names[j]));
    }
}

/// What a new name behind distinct names changes: the new name is found,
/// with its value, and the others are found where they were.
pub proof fn lemma_name_pushed<V>(
    names: Seq<&'static str>,
    values: Seq<V>,
    name: &'static str,
    value: V,
)
    requires
        names_distinct(names.push(name)),
        names.len() == values.len(),
    ensures
        names_distinct(names),
        forall|id: Seq<u8>|
            names_contain(names.push(name), id) <==> names_contain(names, id) || id == cf_id(name),
        forall|id: Seq<u8>|
            names_contain(names, id) ==> values.push(value)[name_position(names.push(name), id)]
                == values[name_position(names, id)],
        values.push(value)[name_position(names.push(name), cf_id(name))] == value,
{
    let after = names.push(name);
    assert forall|i: int, j: int| 0 <= i < j < names.len() implies cf_id(#[trigger] names[i])
        != cf_id(#[trigger] names[j]) by {
        assert(cf_id(after[i]) != cf_id(after[j]));
    }
    assert forall|id: Seq<u8>| names_contain(after, id) <==> names_contain(names, id) || id
        == cf_id(name) by {
        if names_contain(after, id) {
            let i = name_position(after, id);
            if i < names.len() {
                assert(cf_id(names[i]) == id);
            }
        }
        if names_contain(names, id) {
            let i = name_position(names, id);
            assert(cf_id(after[i]) == id);
        }
        if id == cf_id(name) {
            assert(cf_id(after[names.len() as int]) == id);
        }
    }
    assert forall|id: Seq<u8>| names_contain(names, id) implies values.push(value)[name_position(
        after,
        id,
    )] == values[name_position(names, id)] by {
        let i = name_position(names, id);
        assert(after[i] == names[i]);
        lemma_name_position(after, i);
    }
    lemma_name_position(after, names.len() as int);
}

/// Whether two names are the same.
pub fn same_name(a: &str, b: &str) -> (r: bool)
    ensures
        r == (cf_id(a) == cf_id(b)),
{
    bytes::eq(a.as_bytes(), b.as_bytes())
}

/// The position of `name` among `names`, if it is one of them.
pub fn find_name(names: &[&'static str], name: &str) -> (r: Option<usize>)
    ensures
        r matches Some(i) ==> i < names@.len() && cf_id(names@[i as int]) == cf_id(name),
        r is None ==> !names_contain(names@, cf_id(name)),
        r matches Some(i) ==> forall|j: int| 0 <= j < i ==> cf_id(#[trigger] names@[j]) != cf_id(name),
{
    let mut i: usize = 0;
    while i < names.len()
        invariant
            i <= names@.len(),
            forall|j: int| 0 <= j < i ==> cf_id(#[trigger] names@[j]) != cf_id(name),
        decreases names@.len() - i,
    {
        if same_name(names[i], name) {
            return Some(i);
        }
        i += 1;
    }
    None
}

/// The elements of `v` in reverse order.
pub fn reversed<T>(v: Vec<T>) -> (r: Vec<T>)
    ensures
        r@.len() == v@.len(),
        forall|q: int| 0 <= q < r@.len() ==> #[trigger] r@[q] == v@[v@.len() - 1 - q],
{
    let mut v = v;
    let ghost all = v@;
    let mut r: Vec<T> = Vec::new();
    while v.len() > 0
        invariant
            v@ == all.take(v@.len() as int),
            r@.len() + v@.len() == all.len(),
            forall|q: int| 0 <= q < r@.len() ==> #[trigger] r@[q] == all[all.len() - 1 - q],
        decreases v@.len(),
    {
        let ghost n = v@.len();
        match v.pop() {
            Some(x) => {
                r.push(x);
            },
            None => {},
        }
        assert(v@ =~= all.take(v@.len() as int));
    }
    r
}

/// Values, each kept under a name of its own, in the order in which they
/// were put in.
pub struct NameMap<V> {
    names: Vec<&'static str>,
    values: Vec<V>,
}

impl<V> NameMap<V> {
    #[verifier::type_invariant]
    closed spec fn consistent(&self) -> bool {
        &&& self.names@.len() == self.values@.len()
        &&& names_distinct(self.names@)
    }

    /// The names, in the order in which they were put in.
    pub closed spec fn names(&self) -> Seq<&'static str> {
        self.names@
    }

    /// The values, each at the position of its name.
    pub closed spec fn values(&self) -> Seq<V> {
        self.values@
    }

    /// Whether something is kept under the name with identity `id`.
    pub open spec fn has(&self, id: Seq<u8>) -> bool {
        names_contain(self.names(), id)
    }

    /// What is kept under the name with identity `id`.
    pub open spec fn at(&self, id: Seq<u8>) -> V {
        self.values()[name_position(self.names(), id)]
    }

    /// The identities of the names.
    pub open spec fn ids(&self) -> Set<Seq<u8>> {
        Set::new(|id: Seq<u8>| self.has(id))
    }

    /// Nothing, under no name.
    pub fn new() -> (m: Self)
        ensures
            m.names() == Seq::<&'static str>::empty(),
            m.values() == Seq::<V>::empty(),
    {
        NameMap { names: Vec::new(), values: Vec::new() }
    }

    /// The number of names. The names are distinct, and each has its value.
    pub fn len(&self) -> (n: usize)
        ensures
            n == self.names().len(),
            n == self.values().len(),
            names_distinct(self.names()),
    {
        proof {
            use_type_invariant(self);
        }
        self.names.len()
    }

    /// The name at position `i`.
    pub fn name_at(&self, i: usize) -> (name: &'static str)
        requires
            i < self.names().len(),
        ensures
            name == self.names()[i as int],
    {
        self.names[i]
    }

    /// The value at position `i`.
    pub fn value_at(&self, i: usize) -> (value: &V)
        requires
            i < self.names().len(),
        ensures
            *value == self.values()[i as int],
    {
        proof {
            use_type_invariant(self);
        }
        &self.values[i]
    }

    /// The position of `name`, if something is kept under it.
    pub fn find(&self, name: &str) -> (r: Option<usize>)
        ensures
            names_distinct(self.names()),
            self.names().len() == self.values().len(),
            r is Some <==> self.has(cf_id(name)),
            r matches Some(i) ==> {
                &&& i < self.names().len()
                &&& cf_id(self.names()[i as int]) == cf_id(name)
                &&& self.at(cf_id(name)) == self.values()[i as int]
            },
    {
        proof {
            use_type_invariant(self);
        }
        let r = find_name(self.names.as_slice(), name);
        proof {
            if let Some(i) = r {
                lemma_name_position(self.names@, i as int);
            }
        }
        r
    }

    /// Puts `value` under `name`, behind what is there. Where something is
    /// kept under `name` already, nothing changes and `value` comes back.
    pub fn insert(&mut self, name: &'static str, value: V) -> (r: Result<(), V>)
        ensures
            names_distinct(old(self).names()),
            names_distinct(final(self).names()),
            old(self).names().len() == old(self).values().len(),
            final(self).names().len() == final(self).values().len(),
            old(self).has(cf_id(name)) ==> r == Err::<(), V>(value) && *final(self) == *old(self),
            !old(self).has(cf_id(name)) ==> {
                &&& r is Ok
                &&& final(self).names() == old(self).names().push(name)
                &&& final(self).values() == old(self).values().push(value)
            },
    {
        proof {
            use_type_invariant(&*self);
        }
        match find_name(self.names.as_slice(), name) {
            Some(_) => Err(value),
            None => {
                let mut taken: NameMap<V> = NameMap { names: Vec::new(), values: Vec::new() };
                std::mem::swap(self, &mut taken);
                let NameMap { mut names, mut values } = taken;
                names.push(name);
                values.push(value);
                assert(names_distinct(names@)) by {
                    assert forall|i: int, j: int| 0 <= i < j < names@.len() implies cf_id(
                        #[trigger] names@[i],
                    ) != cf_id(#[trigger] names@[j]) by {
                        if j == names@.len() - 1 {
                            assert(cf_id(old(self).names@[i]) != cf_id(name));
                        } else {
                            assert(cf_id(old(self).names@[i]) != cf_id(old(self).names@[j]));
                        }
                    }
                }
                *self = NameMap { names, values };
                Ok(())
            },
        }
    }

    /// The names and the values, each value at the position of its name.
    pub fn into_parts(self) -> (parts: (Vec<&'static str>, Vec<V>))
        ensures
            parts.0@ == self.names(),
            parts.1@ == self.values(),
            parts.0@.len() == parts.1@.len(),
            names_distinct(parts.0@),
    {
        proof {
            use_type_invariant(&self);
        }
        let NameMap { names, values } = self;
        (names, values)
    }

    /// The entries whose names are among `keep`, in the order in which they
    /// were put in.
    pub fn retain_names(self, keep: &[&'static str]) -> (kept: Self)
        ensures
            forall|id: Seq<u8>| kept.has(id) <==> self.has(id) && names_contain(keep@, id),
            forall|id: Seq<u8>| kept.has(id) ==> kept.at(id) == self.at(id),
            forall|i: int, j: int|
                0 <= i < j < kept.names().len() ==> name_position(
                    self.names(),
                    cf_id(#[trigger] kept.names()[i]),
                ) < name_position(self.names(), cf_id(#[trigger] kept.names()[j])),
    {
        proof {
            use_type_invariant(&self);
        }
        let ghost all_names = self.names@;
        let ghost all_values = self.values@;
        let NameMap { names, values } = self;
        let mut names = reversed(names);
        let mut values = reversed(values);
        let mut kept: NameMap<V> = NameMap::new();
        let ghost n = all_names.len() as int;
        while names.len() > 0
            invariant
                n == all_names.len(),
                n == all_values.len(),
                names_distinct(all_names),
                names@.len() == values@.len(),
                names@.len() <= n,
                forall|q: int| 0 <= q < names@.len() ==> #[trigger] names@[q] == all_names[n - 1 - q],
                forall|q: int| 0 <= q < values@.len() ==> #[trigger] values@[q] == all_values[n - 1 - q],
                kept.names().len() == kept.values().len(),
                names_distinct(kept.names()),
                forall|id: Seq<u8>|
                    kept.has(id) <==> names_contain(all_names.take(n - names@.len()), id)
                        && names_contain(keep@, id),
                forall|id: Seq<u8>|
                    kept.has(id) ==> kept.at(id) == all_values[name_position(all_names, id)],
                forall|i: int|
                    0 <= i < kept.names().len() ==> name_position(
                        all_names,
                        cf_id(#[trigger] kept.names()[i]),
                    ) < n - names@.len(),
                forall|i: int, j: int|
                    0 <= i < j < kept.names().len() ==> name_position(
                        all_names,
                        cf_id(#[trigger] kept.names()[i]),
                    ) < name_position(all_names, cf_id(#[trigger] kept.names()[j])),
            decreases names@.len(),
        {
            let ghost p = n - names@.len();
            let ghost before = kept;
            let name = names.pop().unwrap();
            let value = values.pop().unwrap();
            proof {
                assert(name == all_names[p]);
                assert(value == all_values[p]);
                lemma_name_position(all_names, p);
                assert(all_names.take(p + 1) =~= all_names.take(p).push(name));
                assert(!names_contain(all_names.take(p), cf_id(name))) by {
                    if names_contain(all_names.take(p), cf_id(name)) {
                        let q = name_position(all_names.take(p), cf_id(name));
                        assert(cf_id(all_names[q]) == cf_id(all_names[p]));
                    }
                }
            }
            let wanted = find_name(keep, name);
            if wanted.is_some() {
                let r = kept.insert(name, value);
                proof {
                    assert(!before.has(cf_id(name)));
                    lemma_name_pushed(before.names(), before.values(), name, value);
                    assert(names_contain(keep@, cf_id(name))) by {
                        assert(cf_id(keep@[wanted.unwrap() as int]) == cf_id(name));
                    }
                    assert forall|id: Seq<u8>|
                        kept.has(id) <==> names_contain(all_names.take(p + 1), id) && names_contain(
                            keep@,
                            id,
                        ) by {
                        assert(before.has(id) <==> names_contain(all_names.take(p), id)
                            && names_contain(keep@, id));
                        if names_contain(all_names.take(p + 1), id) && id != cf_id(name) {
                            let q = name_position(all_names.take(p + 1), id);
                            assert(all_names.take(p + 1)[p] == name);
                            assert(q != p);
                            assert(cf_id(all_names.take(p)[q]) == id);
                            assert(names_contain(all_names.take(p), id));
                        }
                        if names_contain(all_names.take(p), id) {
                            let q = name_position(all_names.take(p), id);
                            assert(cf_id(all_names.take(p + 1)[q]) == id);
                        }
                        if id == cf_id(name) {
                            assert(cf_id(all_names.take(p + 1)[p]) == id);
                        }
                    }
                    assert forall|id: Seq<u8>| kept.has(id) implies kept.at(id)
                        == all_values[name_position(all_names, id)] by {
                        if id != cf_id(name) {
                            assert(before.has(id));
                        }
                    }
                }
            } else {
                proof {
                    assert(!names_contain(keep@, cf_id(name)));
                    assert forall|id: Seq<u8>|
                        kept.has(id) <==> names_contain(all_names.take(p + 1), id) && names_contain(
                            keep@,
                            id,
                        ) by {
                        assert(kept.has(id) <==> names_contain(all_names.take(p), id)
                            && names_contain(keep@, id));
                        if names_contain(all_names.take(p + 1), id) && id != cf_id(name) {
                            let q = name_position(all_names.take(p + 1), id);
                            assert(all_names.take(p + 1)[p] == name);
                            assert(q != p);
                            assert(cf_id(all_names.take(p)[q]) == id);
                            assert(names_contain(all_names.take(p), id));
                        }
                        if names_contain(all_names.take(p), id) {
                            let q = name_position(all_names.take(p), id);
                            assert(cf_id(all_names.take(p + 1)[q]) == id);
                        }
                    }
                }
            }
        }
        proof {
            assert(all_names.take(n) =~= all_names);
        }
        kept
    }

    /// Exchanges the value at position `i` with `value`.
    pub fn swap_value(&mut self, i: usize, value: &mut V)
        requires
            i < old(self).names().len(),
        ensures
            names_distinct(old(self).names()),
            old(self).names().len() == old(self).values().len(),
            final(self).names() == old(self).names(),
            final(self).values() == old(self).values().update(i as int, *old(value)),
            *final(value) == old(self).values()[i as int],
    {
        proof {
            use_type_invariant(&*self);
        }
        let mut taken: NameMap<V> = NameMap { names: Vec::new(), values: Vec::new() };
        std::mem::swap(self, &mut taken);
        let NameMap { names, mut values } = taken;
        std::mem::swap(&mut values[i], value);
        *self = NameMap { names, values };
    }
}

} // verus!
