//! An ordered map from keys to values, held in memory.
//!
//! The pairs are kept in a vector, in strictly ascending order of their
//! keys, so that a scan is a walk of the vector.

use vstd::prelude::*;
use crate::bytes;
use crate::bytes::{lex_lt, lemma_lex_lt_irreflexive, lemma_lex_lt_total, lemma_lex_lt_transitive};
use crate::range::KeyRange;
use crate::store::{
    ascending, is_scan_of, lemma_ascending_distinct, lemma_listing_map_at, listing_map,
    listing_view, lookup, value_view, CfData,
};

verus! {

/// The contents of a column family.
pub struct ColumnFamily {
    entries: Vec<(Vec<u8>, Vec<u8>)>,
}

impl View for ColumnFamily {
    type V = CfData;

    closed spec fn view(&self) -> CfData {
        listing_map(listing_view(self.entries@))
    }
}

impl ColumnFamily {
    #[verifier::type_invariant]
    spec fn sorted(&self) -> bool {
        ascending(listing_view(self.entries@))
    }

    /// An empty column family.
    pub fn new() -> (cf: Self)
        ensures
            cf@ == CfData::empty(),
    {
        let cf = ColumnFamily { entries: Vec::new() };
        assert(cf@ =~= CfData::empty());
        cf
    }

    /// The number of pairs.
    pub fn len(&self) -> (n: usize)
        ensures
            n == self@.dom().len(),
            self@.dom().finite(),
    {
        proof {
            use_type_invariant(self);
            lemma_listing_len(listing_view(self.entries@));
        }
        self.entries.len()
    }

    /// The position of the first pair whose key is not before `key`.
    fn lower_bound(&self, key: &[u8]) -> (i: usize)
        ensures
            i <= self.entries@.len(),
            forall|j: int| 0 <= j < i ==> lex_lt(#[trigger] self.entries@[j].0@, key@),
            i < self.entries@.len() ==> !lex_lt(self.entries@[i as int].0@, key@),
    {
        let mut i: usize = 0;
        while i < self.entries.len()
            invariant
                i <= self.entries@.len(),
                forall|j: int| 0 <= j < i ==> lex_lt(#[trigger] self.entries@[j].0@, key@),
            decreases self.entries@.len() - i,
        {
            if !bytes::lt(self.entries[i].0.as_slice(), key) {
                return i;
            }
            i += 1;
        }
        i
    }

    /// The value stored under `key`, if there is one.
    pub fn get(&self, key: &[u8]) -> (r: Option<Vec<u8>>)
        ensures
            value_view(r) == lookup(self@, key@),
    {
        proof {
            use_type_invariant(self);
        }
        let i = self.lower_bound(key);
        if i < self.entries.len() && bytes::eq(self.entries[i].0.as_slice(), key) {
            proof {
                lemma_listing_map_at(listing_view(self.entries@), i as int);
            }
            Some(bytes::to_vec(self.entries[i].1.as_slice()))
        } else {
            proof {
                lemma_absent(listing_view(self.entries@), i as int, key@);
            }
            None
        }
    }

    /// Stores `value` under `key` and returns the value that was there
    /// before.
    pub fn insert(&mut self, key: &[u8], value: &[u8]) -> (r: Option<Vec<u8>>)
        ensures
            value_view(r) == lookup(old(self)@, key@),
            final(self)@ == old(self)@.insert(key@, value@),
    {
        proof {
            use_type_invariant(&*self);
        }
        let ghost before = listing_view(self.entries@);
        let i = self.lower_bound(key);
        if i < self.entries.len() && bytes::eq(self.entries[i].0.as_slice(), key) {
            let previous = bytes::to_vec(self.entries[i].1.as_slice());
            proof {
                lemma_listing_map_at(before, i as int);
                lemma_replaced(before, i as int, value@);
            }
            let pair = (bytes::to_vec(key), bytes::to_vec(value));
            assert(listing_view(self.entries@.update(i as int, pair)) =~= before.update(
                i as int,
                (key@, value@),
            ));
            let mut entries: Vec<(Vec<u8>, Vec<u8>)> = Vec::new();
            assert(listing_view(entries@) =~= Seq::empty());
            std::mem::swap(&mut self.entries, &mut entries);
            entries[i] = pair;
            self.entries = entries;
            Some(previous)
        } else {
            proof {
                lemma_absent(before, i as int, key@);
                lemma_inserted(before, i as int, key@, value@);
            }
            let pair = (bytes::to_vec(key), bytes::to_vec(value));
            assert(listing_view(self.entries@.insert(i as int, pair)) =~= before.insert(
                i as int,
                (key@, value@),
            ));
            let mut entries: Vec<(Vec<u8>, Vec<u8>)> = Vec::new();
            assert(listing_view(entries@) =~= Seq::empty());
            std::mem::swap(&mut self.entries, &mut entries);
            entries.insert(i, pair);
            self.entries = entries;
            None
        }
    }

    /// Removes `key` and returns the value that was stored under it.
    pub fn remove(&mut self, key: &[u8]) -> (r: Option<Vec<u8>>)
        ensures
            value_view(r) == lookup(old(self)@, key@),
            final(self)@ == old(self)@.remove(key@),
    {
        proof {
            use_type_invariant(&*self);
        }
        let ghost before = listing_view(self.entries@);
        let i = self.lower_bound(key);
        if i < self.entries.len() && bytes::eq(self.entries[i].0.as_slice(), key) {
            proof {
                lemma_listing_map_at(before, i as int);
                lemma_removed(before, i as int);
            }
            assert(listing_view(self.entries@.remove(i as int)) =~= before.remove(i as int));
            let mut entries: Vec<(Vec<u8>, Vec<u8>)> = Vec::new();
            assert(listing_view(entries@) =~= Seq::empty());
            std::mem::swap(&mut self.entries, &mut entries);
            let pair = entries.remove(i);
            self.entries = entries;
            Some(pair.1)
        } else {
            proof {
                lemma_absent(before, i as int, key@);
                assert(self@ =~= self@.remove(key@));
            }
            None
        }
    }

    /// Removes every pair.
    pub fn clear(&mut self)
        ensures
            final(self)@ == CfData::empty(),
    {
        let entries: Vec<(Vec<u8>, Vec<u8>)> = Vec::new();
        assert(listing_view(entries@) =~= Seq::empty());
        assert(listing_map(Seq::empty()) =~= CfData::empty());
        self.entries = entries;
    }

    /// The pairs whose keys lie in `range`, in ascending order of their
    /// keys.
    pub fn range(&self, range: &KeyRange<Vec<u8>>) -> (items: Vec<(Vec<u8>, Vec<u8>)>)
        ensures
            is_scan_of(listing_view(items@), self@, range@),
    {
        proof {
            use_type_invariant(self);
        }
        let ghost all = listing_view(self.entries@);
        let mut items: Vec<(Vec<u8>, Vec<u8>)> = Vec::new();
        // For each pair delivered, the position that it was taken from.
        let ghost mut origin: Seq<int> = Seq::empty();
        let mut i: usize = 0;
        while i < self.entries.len()
            invariant
                i <= self.entries@.len(),
                all == listing_view(self.entries@),
                ascending(all),
                origin.len() == items@.len(),
                forall|j: int| 0 <= j < origin.len() ==> 0 <= #[trigger] origin[j] < i,
                forall|j: int, k: int| 0 <= j < k < origin.len() ==> origin[j] < origin[k],
                forall|j: int|
                    0 <= j < origin.len() ==> #[trigger] listing_view(items@)[j] == all[origin[j]],
                forall|j: int| 0 <= j < origin.len() ==> range@.contains(all[#[trigger] origin[j]].0),
                forall|p: int|
                    0 <= p < i && range@.contains(#[trigger] all[p].0) ==> exists|j: int|
                        0 <= j < origin.len() && #[trigger] origin[j] == p,
            decreases self.entries@.len() - i,
        {
            if range.contains(self.entries[i].0.as_slice()) {
                let pair = (
                    bytes::to_vec(self.entries[i].0.as_slice()),
                    bytes::to_vec(self.entries[i].1.as_slice()),
                );
                let ghost before = origin;
                let ghost before_items = listing_view(items@);
                items.push(pair);
                proof {
                    origin = origin.push(i as int);
                    assert forall|j: int| 0 <= j < origin.len() implies #[trigger] listing_view(
                        items@,
                    )[j] == all[origin[j]] by {
                        if j < before.len() {
                            assert(listing_view(items@)[j] == before_items[j]);
                        }
                    }
                    assert forall|p: int|
                        0 <= p < i + 1 && range@.contains(#[trigger] all[p].0) implies exists|j: int|
                        0 <= j < origin.len() && #[trigger] origin[j] == p by {
                        if p < i {
                            let j = choose|j: int| 0 <= j < before.len() && #[trigger] before[j] == p;
                            assert(origin[j] == p);
                        } else {
                            assert(origin[before.len() as int] == p);
                        }
                    }
                }
            } else {
                proof {
                    assert forall|p: int|
                        0 <= p < i + 1 && range@.contains(#[trigger] all[p].0) implies exists|j: int|
                        0 <= j < origin.len() && #[trigger] origin[j] == p by {
                        assert(p < i);
                    }
                }
            }
            i += 1;
        }
        proof {
            let out = listing_view(items@);
            assert forall|j: int, k: int| 0 <= j < k < out.len() implies lex_lt(
                #[trigger] out[j].0,
                #[trigger] out[k].0,
            ) by {
                assert(out[j] == all[origin[j]]);
                assert(out[k] == all[origin[k]]);
            }
            assert forall|j: int| 0 <= j < out.len() implies {
                &&& self@.contains_key(#[trigger] out[j].0)
                &&& self@[out[j].0] == out[j].1
                &&& range@.contains(out[j].0)
            } by {
                assert(out[j] == all[origin[j]]);
                lemma_listing_map_at(all, origin[j]);
            }
            assert forall|k: Seq<u8>| self@.contains_key(k) && range@.contains(k) implies exists|
                j: int,
            |
                0 <= j < out.len() && #[trigger] out[j].0 == k by {
                let p = choose|p: int| 0 <= p < all.len() && #[trigger] all[p].0 == k;
                assert(range@.contains(all[p].0));
                let j = choose|j: int| 0 <= j < origin.len() && #[trigger] origin[j] == p;
                assert(out[j] == all[origin[j]]);
            }
        }
        items
    }

    /// A copy with the same pairs.
    pub fn duplicate(&self) -> (cf: Self)
        ensures
            cf@ == self@,
    {
        proof {
            use_type_invariant(self);
        }
        let mut entries: Vec<(Vec<u8>, Vec<u8>)> = Vec::with_capacity(self.entries.len());
        let mut i: usize = 0;
        while i < self.entries.len()
            invariant
                i <= self.entries@.len(),
                entries@.len() == i,
                forall|j: int|
                    0 <= j < i ==> #[trigger] listing_view(entries@)[j] == listing_view(
                        self.entries@,
                    )[j],
            decreases self.entries@.len() - i,
        {
            let pair = (
                bytes::to_vec(self.entries[i].0.as_slice()),
                bytes::to_vec(self.entries[i].1.as_slice()),
            );
            let ghost before = listing_view(entries@);
            entries.push(pair);
            assert forall|j: int| 0 <= j < i + 1 implies #[trigger] listing_view(entries@)[j]
                == listing_view(self.entries@)[j] by {
                if j < i {
                    assert(listing_view(entries@)[j] == before[j]);
                }
            }
            i += 1;
        }
        assert(listing_view(entries@) =~= listing_view(self.entries@));
        ColumnFamily { entries }
    }

    /// Whether `self` and `other` hold the same pairs.
    pub fn same_as(&self, other: &ColumnFamily) -> (r: bool)
        ensures
            r == (self@ == other@),
    {
        proof {
            use_type_invariant(self);
            use_type_invariant(other);
        }
        let ghost a = listing_view(self.entries@);
        let ghost b = listing_view(other.entries@);
        if self.entries.len() != other.entries.len() {
            proof {
                lemma_listing_len(a);
                lemma_listing_len(b);
            }
            return false;
        }
        let mut i: usize = 0;
        while i < self.entries.len()
            invariant
                i <= self.entries@.len(),
                self.entries@.len() == other.entries@.len(),
                a == listing_view(self.entries@),
                b == listing_view(other.entries@),
                ascending(a),
                ascending(b),
                forall|j: int| 0 <= j < i ==> a[j] == b[j],
            decreases self.entries@.len() - i,
        {
            if !bytes::eq(self.entries[i].0.as_slice(), other.entries[i].0.as_slice())
                || !bytes::eq(self.entries[i].1.as_slice(), other.entries[i].1.as_slice()) {
                proof {
                    if self@ == other@ {
                        crate::store::lemma_listing_scans_its_map(a);
                        crate::store::lemma_listing_scans_its_map(b);
                        crate::store::lemma_scan_unique(a, b, self@, KeyRange::<Seq<u8>>::full());
                        assert(a[i as int] == b[i as int]);
                    }
                }
                return false;
            }
            i += 1;
        }
        assert(a =~= b);
        true
    }
}

/// An ascending listing has as many pairs as its map has keys.
proof fn lemma_listing_len(items: crate::store::Listing)
    requires
        ascending(items),
    ensures
        listing_map(items).dom().finite(),
        listing_map(items).dom().len() == items.len(),
    decreases items.len(),
{
    if items.len() == 0 {
        assert(listing_map(items).dom() =~= Set::empty());
    } else {
        let rest = items.drop_last();
        let last = items.last();
        lemma_listing_len(rest);
        assert(listing_map(items).dom() =~= listing_map(rest).dom().insert(last.0)) by {
            assert forall|k: Seq<u8>| listing_map(items).dom().contains(k) implies listing_map(
                rest,
            ).dom().insert(last.0).contains(k) by {
                let i = choose|i: int| 0 <= i < items.len() && #[trigger] items[i].0 == k;
                if i < rest.len() {
                    assert(rest[i].0 == k);
                }
            }
            assert forall|k: Seq<u8>| listing_map(rest).dom().insert(last.0).contains(
                k,
            ) implies listing_map(items).dom().contains(k) by {
                if k == last.0 {
                    assert(items[items.len() - 1].0 == k);
                } else {
                    let i = choose|i: int| 0 <= i < rest.len() && #[trigger] rest[i].0 == k;
                    assert(items[i].0 == k);
                }
            }
        }
        if listing_map(rest).dom().contains(last.0) {
            let i = choose|i: int| 0 <= i < rest.len() && #[trigger] rest[i].0 == last.0;
            assert(items[i].0 == last.0);
            lemma_ascending_distinct(items, i, items.len() - 1);
        }
    }
}

/// Where the first key of an ascending listing that is not before `key` is
/// not `key` itself, `key` is not in the listing.
proof fn lemma_absent(items: crate::store::Listing, i: int, key: Seq<u8>)
    requires
        ascending(items),
        0 <= i <= items.len(),
        forall|j: int| 0 <= j < i ==> lex_lt(#[trigger] items[j].0, key),
        i < items.len() ==> !lex_lt(items[i].0, key) && items[i].0 != key,
    ensures
        !listing_map(items).contains_key(key),
{
    if listing_map(items).contains_key(key) {
        let j = choose|j: int| 0 <= j < items.len() && #[trigger] items[j].0 == key;
        lemma_lex_lt_irreflexive(key);
        if j > i {
            assert(lex_lt(items[i].0, items[j].0));
        }
    }
}

/// Putting a new key at its place in an ascending listing keeps the listing
/// ascending and adds the pair to its map.
proof fn lemma_inserted(items: crate::store::Listing, i: int, key: Seq<u8>, value: Seq<u8>)
    requires
        ascending(items),
        0 <= i <= items.len(),
        forall|j: int| 0 <= j < i ==> lex_lt(#[trigger] items[j].0, key),
        i < items.len() ==> !lex_lt(items[i].0, key) && items[i].0 != key,
    ensures
        ascending(items.insert(i, (key, value))),
        listing_map(items.insert(i, (key, value))) == listing_map(items).insert(key, value),
{
    let after = items.insert(i, (key, value));
    assert forall|a: int, b: int| 0 <= a < b < after.len() implies lex_lt(
        #[trigger] after[a].0,
        #[trigger] after[b].0,
    ) by {
        if b == i {
            assert(after[a] == items[a]);
        } else if a == i {
            assert(after[b] == items[b - 1]);
            lemma_lex_lt_total(items[i].0, key);
            if b - 1 > i {
                assert(lex_lt(items[i].0, items[b - 1].0));
                lemma_lex_lt_transitive(key, items[i].0, items[b - 1].0);
            }
        } else {
            let a0 = if a < i { a } else { a - 1 };
            let b0 = if b < i { b } else { b - 1 };
            assert(after[a] == items[a0]);
            assert(after[b] == items[b0]);
            assert(lex_lt(items[a0].0, items[b0].0));
        }
    }
    assert forall|k: Seq<u8>| listing_map(after).contains_key(k) <==> listing_map(items).insert(
        key,
        value,
    ).contains_key(k) by {
        if listing_map(after).contains_key(k) {
            let j = choose|j: int| 0 <= j < after.len() && #[trigger] after[j].0 == k;
            if j < i {
                assert(items[j].0 == k);
            } else if j > i {
                assert(items[j - 1].0 == k);
            }
        }
        if listing_map(items).contains_key(k) {
            let j = choose|j: int| 0 <= j < items.len() && #[trigger] items[j].0 == k;
            if j < i {
                assert(after[j].0 == k);
            } else {
                assert(after[j + 1].0 == k);
            }
        }
        if k == key {
            assert(after[i].0 == k);
        }
    }
    assert forall|k: Seq<u8>| listing_map(after).contains_key(k) implies listing_map(after)[k]
        == listing_map(items).insert(key, value)[k] by {
        let j = choose|j: int| 0 <= j < after.len() && #[trigger] after[j].0 == k;
        lemma_listing_map_at(after, j);
        if j < i {
            lemma_listing_map_at(items, j);
            if k == key {
                lemma_lex_lt_irreflexive(key);
            }
        } else if j > i {
            lemma_listing_map_at(items, j - 1);
            if k == key {
                lemma_ascending_distinct(after, i, j);
            }
        }
    }
    assert(listing_map(after) =~= listing_map(items).insert(key, value));
}

/// Changing the value of the pair at `i` keeps an ascending listing
/// ascending and changes the value in its map.
proof fn lemma_replaced(items: crate::store::Listing, i: int, value: Seq<u8>)
    requires
        ascending(items),
        0 <= i < items.len(),
    ensures
        ascending(items.update(i, (items[i].0, value))),
        listing_map(items.update(i, (items[i].0, value))) == listing_map(items).insert(
            items[i].0,
            value,
        ),
{
    let key = items[i].0;
    let after = items.update(i, (key, value));
    assert forall|a: int, b: int| 0 <= a < b < after.len() implies lex_lt(
        #[trigger] after[a].0,
        #[trigger] after[b].0,
    ) by {
        assert(after[a].0 == items[a].0);
        assert(after[b].0 == items[b].0);
        assert(lex_lt(items[a].0, items[b].0));
    }
    assert forall|k: Seq<u8>| listing_map(after).contains_key(k) <==> listing_map(items).insert(
        key,
        value,
    ).contains_key(k) by {
        if listing_map(after).contains_key(k) {
            let j = choose|j: int| 0 <= j < after.len() && #[trigger] after[j].0 == k;
            assert(items[j].0 == k);
        }
        if listing_map(items).contains_key(k) {
            let j = choose|j: int| 0 <= j < items.len() && #[trigger] items[j].0 == k;
            assert(after[j].0 == k);
        }
        if k == key {
            assert(after[i].0 == k);
        }
    }
    assert forall|k: Seq<u8>| listing_map(after).contains_key(k) implies listing_map(after)[k]
        == listing_map(items).insert(key, value)[k] by {
        let j = choose|j: int| 0 <= j < after.len() && #[trigger] after[j].0 == k;
        lemma_listing_map_at(after, j);
        if j != i {
            assert(items[j].0 == k);
            lemma_listing_map_at(items, j);
            if k == key {
                lemma_ascending_distinct(items, i, j);
            }
        }
    }
    assert(listing_map(after) =~= listing_map(items).insert(key, value));
}

/// Taking the pair at `i` out of an ascending listing keeps the listing
/// ascending and removes its key from the map.
proof fn lemma_removed(items: crate::store::Listing, i: int)
    requires
        ascending(items),
        0 <= i < items.len(),
    ensures
        ascending(items.remove(i)),
        listing_map(items.remove(i)) == listing_map(items).remove(items[i].0),
{
    let key = items[i].0;
    let after = items.remove(i);
    assert forall|a: int, b: int| 0 <= a < b < after.len() implies lex_lt(
        #[trigger] after[a].0,
        #[trigger] after[b].0,
    ) by {
        let a0 = if a < i { a } else { a + 1 };
        let b0 = if b < i { b } else { b + 1 };
        assert(after[a] == items[a0]);
        assert(after[b] == items[b0]);
        assert(lex_lt(items[a0].0, items[b0].0));
    }
    assert forall|k: Seq<u8>| listing_map(after).contains_key(k) <==> listing_map(items).remove(
        key,
    ).contains_key(k) by {
        if listing_map(after).contains_key(k) {
            let j = choose|j: int| 0 <= j < after.len() && #[trigger] after[j].0 == k;
            let j0 = if j < i { j } else { j + 1 };
            assert(items[j0].0 == k);
            if k == key {
                lemma_ascending_distinct(items, i, j0);
            }
        }
        if listing_map(items).contains_key(k) && k != key {
            let j = choose|j: int| 0 <= j < items.len() && #[trigger] items[j].0 == k;
            if j < i {
                assert(after[j].0 == k);
            } else {
                assert(after[j - 1].0 == k);
            }
        }
    }
    assert forall|k: Seq<u8>| listing_map(after).contains_key(k) implies listing_map(after)[k]
        == listing_map(items).remove(key)[k] by {
        let j = choose|j: int| 0 <= j < after.len() && #[trigger] after[j].0 == k;
        lemma_listing_map_at(after, j);
        let j0 = if j < i { j } else { j + 1 };
        assert(items[j0] == after[j]);
        lemma_listing_map_at(items, j0);
    }
    assert(listing_map(after) =~= listing_map(items).remove(key));
}

} // verus!
