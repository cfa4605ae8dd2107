//! The mathematical model of stored data.
//!
//! A column family is a map from keys to values; a store is a map from the
//! names of its column families to their contents. What a scan delivers is
//! the listing of a column family in key order.

use vstd::prelude::*;
use vstd::string::StringSliceAdditionalSpecFns;
use crate::bytes::{lex_lt, lemma_lex_lt_irreflexive, lemma_lex_lt_transitive};
use crate::range::{
    last_incrementable, lemma_prefix_range_covers, lemma_prefix_range_exact, spec_prefix_range,
    spec_successor, Bound, KeyRange,
};

verus! {

/// The contents of one column family.
pub type CfData = Map<Seq<u8>, Seq<u8>>;

/// The contents of several column families, each under its identity.
pub type Cfs = Map<Seq<u8>, CfData>;

/// A listing of keys with their values.
pub type Listing = Seq<(Seq<u8>, Seq<u8>)>;

/// The identity of the column family called `name`: the bytes of the name.
pub open spec fn cf_id(name: &str) -> Seq<u8> {
    name.spec_bytes()
}

/// The value stored under `key`, if there is one.
pub open spec fn lookup(data: CfData, key: Seq<u8>) -> Option<Seq<u8>> {
    if data.contains_key(key) {
        Some(data[key])
    } else {
        None
    }
}

/// What an optional owned value stands for.
pub open spec fn value_view(v: Option<Vec<u8>>) -> Option<Seq<u8>> {
    match v {
        Some(bytes) => Some(bytes@),
        None => None,
    }
}

/// What a vector of owned pairs stands for.
pub open spec fn listing_view(items: Seq<(Vec<u8>, Vec<u8>)>) -> Listing {
    Seq::new(items.len(), |i: int| (items[i].0@, items[i].1@))
}

/// The keys of `items` are in strictly ascending order.
pub open spec fn ascending(items: Listing) -> bool {
    forall|i: int, j: int| 0 <= i < j < items.len() ==> lex_lt(#[trigger] items[i].0, #[trigger] items[j].0)
}

/// `items` is what a scan of `data` over `range` delivers: every pair of
/// `data` whose key lies in `range`, once, in strictly ascending key order.
pub open spec fn is_scan_of(items: Listing, data: CfData, range: KeyRange<Seq<u8>>) -> bool {
    &&& ascending(items)
    &&& forall|i: int|
        0 <= i < items.len() ==> {
            &&& data.contains_key(#[trigger] items[i].0)
            &&& data[items[i].0] == items[i].1
            &&& range.contains(items[i].0)
        }
    &&& forall|k: Seq<u8>|
        data.contains_key(k) && range.contains(k) ==> exists|i: int|
            0 <= i < items.len() && #[trigger] items[i].0 == k
}

/// A position at which `items` holds the key `k`.
pub open spec fn position_of(items: Listing, k: Seq<u8>) -> int {
    choose|i: int| 0 <= i < items.len() && #[trigger] items[i].0 == k
}

/// The map that holds the pairs of `items`.
pub open spec fn listing_map(items: Listing) -> CfData {
    Map::new(
        |k: Seq<u8>| exists|i: int| 0 <= i < items.len() && #[trigger] items[i].0 == k,
        |k: Seq<u8>| items[position_of(items, k)].1,
    )
}

/// No key occurs twice in an ascending listing.
pub proof fn lemma_ascending_distinct(items: Listing, i: int, j: int)
    requires
        ascending(items),
        0 <= i < items.len(),
        0 <= j < items.len(),
        items[i].0 == items[j].0,
    ensures
        i == j,
{
    lemma_lex_lt_irreflexive(items[i].0);
    if i < j {
        assert(lex_lt(items[i].0, items[j].0));
    } else if j < i {
        assert(lex_lt(items[j].0, items[i].0));
    }
}

/// The map of an ascending listing holds each of its pairs.
pub proof fn lemma_listing_map_at(items: Listing, i: int)
    requires
        ascending(items),
        0 <= i < items.len(),
    ensures
        listing_map(items).contains_key(items[i].0),
        listing_map(items)[items[i].0] == items[i].1,
{
    let k = items[i].0;
    let j = position_of(items, k);
    lemma_ascending_distinct(items, i, j);
}

/// An ascending listing is the scan of its own map over every key.
pub proof fn lemma_listing_scans_its_map(items: Listing)
    requires
        ascending(items),
    ensures
        is_scan_of(items, listing_map(items), KeyRange::<Seq<u8>>::full()),
{
    assert forall|i: int| 0 <= i < items.len() implies {
        &&& listing_map(items).contains_key(#[trigger] items[i].0)
        &&& listing_map(items)[items[i].0] == items[i].1
        &&& KeyRange::<Seq<u8>>::full().contains(items[i].0)
    } by {
        lemma_listing_map_at(items, i);
    }
}

/// A scan over every key lists the whole column family.
pub proof fn lemma_full_scan_is_everything(items: Listing, data: CfData)
    requires
        is_scan_of(items, data, KeyRange::<Seq<u8>>::full()),
    ensures
        listing_map(items) == data,
{
    assert forall|k: Seq<u8>| listing_map(items).contains_key(k) <==> data.contains_key(k) by {
        if listing_map(items).contains_key(k) {
            let i = position_of(items, k);
            assert(data.contains_key(items[i].0));
        }
        if data.contains_key(k) {
            assert(KeyRange::<Seq<u8>>::full().contains(k));
        }
    }
    assert forall|k: Seq<u8>| listing_map(items).contains_key(k) implies listing_map(items)[k]
        == data[k] by {
        let i = position_of(items, k);
        lemma_listing_map_at(items, i);
        assert(data[items[i].0] == items[i].1);
    }
    assert(listing_map(items) =~= data);
}

/// The map of the first `n + 1` pairs of an ascending listing is the map of
/// the first `n` with one more pair, under a key that was not there.
pub proof fn lemma_listing_map_take(items: Listing, n: int)
    requires
        ascending(items),
        0 <= n < items.len(),
    ensures
        !listing_map(items.take(n)).contains_key(items[n].0),
        listing_map(items.take(n + 1)) == listing_map(items.take(n)).insert(
            items[n].0,
            items[n].1,
        ),
        ascending(items.take(n)),
{
    let a = items.take(n);
    let b = items.take(n + 1);
    if listing_map(a).contains_key(items[n].0) {
        let i = position_of(a, items[n].0);
        assert(a[i] == items[i]);
        lemma_ascending_distinct(items, i, n);
    }
    assert forall|i: int, j: int| 0 <= i < j < b.len() implies lex_lt(
        #[trigger] b[i].0,
        #[trigger] b[j].0,
    ) by {
        assert(lex_lt(items[i].0, items[j].0));
    }
    assert forall|i: int, j: int| 0 <= i < j < a.len() implies lex_lt(
        #[trigger] a[i].0,
        #[trigger] a[j].0,
    ) by {
        assert(lex_lt(items[i].0, items[j].0));
    }
    let target = listing_map(a).insert(items[n].0, items[n].1);
    assert forall|k: Seq<u8>| listing_map(b).contains_key(k) <==> target.contains_key(k) by {
        if listing_map(b).contains_key(k) {
            let i = position_of(b, k);
            if i < n {
                assert(a[i].0 == k);
            }
        }
        if listing_map(a).contains_key(k) {
            let i = position_of(a, k);
            assert(b[i].0 == k);
        }
        if k == items[n].0 {
            assert(b[n].0 == k);
        }
    }
    assert forall|k: Seq<u8>| listing_map(b).contains_key(k) implies listing_map(b)[k]
        == target[k] by {
        let i = position_of(b, k);
        lemma_listing_map_at(b, i);
        if i < n {
            assert(a[i] == b[i]);
            lemma_listing_map_at(a, i);
        }
    }
    assert(listing_map(b) =~= target);
}

/// The pairs of `data` whose keys sort before `key`.
pub open spec fn before_key(data: CfData, key: Seq<u8>) -> CfData {
    Map::new(|k: Seq<u8>| data.contains_key(k) && lex_lt(k, key), |k: Seq<u8>| data[k])
}

/// The first `n` pairs of the listing of a column family are the pairs whose
/// keys sort before the key of the pair at `n`.
pub proof fn lemma_listing_take_is_before(items: Listing, data: CfData, n: int)
    requires
        ascending(items),
        listing_map(items) == data,
        0 <= n < items.len(),
    ensures
        listing_map(items.take(n)) == before_key(data, items[n].0),
{
    let front = items.take(n);
    let key = items[n].0;
    assert forall|i: int, j: int| 0 <= i < j < front.len() implies lex_lt(
        #[trigger] front[i].0,
        #[trigger] front[j].0,
    ) by {
        assert(lex_lt(items[i].0, items[j].0));
    }
    assert forall|k: Seq<u8>| listing_map(front).contains_key(k) <==> before_key(
        data,
        key,
    ).contains_key(k) by {
        if listing_map(front).contains_key(k) {
            let p = position_of(front, k);
            assert(items[p].0 == k);
            assert(lex_lt(items[p].0, items[n].0));
            lemma_listing_map_at(items, p);
        }
        if data.contains_key(k) && lex_lt(k, key) {
            let p = position_of(items, k);
            if p == n {
                lemma_lex_lt_irreflexive(k);
            } else if p > n {
                assert(lex_lt(items[n].0, items[p].0));
                lemma_lex_lt_transitive(k, key, k);
                lemma_lex_lt_irreflexive(k);
            } else {
                assert(front[p].0 == k);
            }
        }
    }
    assert forall|k: Seq<u8>| listing_map(front).contains_key(k) implies listing_map(front)[k]
        == before_key(data, key)[k] by {
        let p = position_of(front, k);
        lemma_listing_map_at(front, p);
        assert(front[p] == items[p]);
        lemma_listing_map_at(items, p);
    }
    assert(listing_map(front) =~= before_key(data, key));
}

/// Two scans of the same data over the same range agree on their first `n`
/// keys.
proof fn lemma_scans_agree_upto(
    a: Listing,
    b: Listing,
    data: CfData,
    range: KeyRange<Seq<u8>>,
    n: int,
)
    requires
        is_scan_of(a, data, range),
        is_scan_of(b, data, range),
        0 <= n <= a.len(),
    ensures
        n <= b.len(),
        forall|i: int| 0 <= i < n ==> a[i].0 == b[i].0,
    decreases n,
{
    if n > 0 {
        lemma_scans_agree_upto(a, b, data, range, n - 1);
        let m = n - 1;
        // The key of `a` at `m` occurs in `b`, at some position `j`.
        let ka = a[m].0;
        assert(data.contains_key(ka) && range.contains(ka));
        let j = choose|j: int| 0 <= j < b.len() && #[trigger] b[j].0 == ka;
        if j < m {
            // Then `a` holds that key twice.
            assert(a[j].0 == b[j].0);
            lemma_ascending_distinct(a, j, m);
        }
        assert(m < b.len());
        if j > m {
            // Then the key of `b` at `m` is smaller, and occurs in `a` behind `m`.
            let kb = b[m].0;
            assert(lex_lt(b[m].0, b[j].0));
            assert(data.contains_key(kb) && range.contains(kb));
            let i = choose|i: int| 0 <= i < a.len() && #[trigger] a[i].0 == kb;
            if i < m {
                assert(a[i].0 == b[i].0);
                lemma_ascending_distinct(b, i, m);
            } else if i == m {
                lemma_lex_lt_irreflexive(ka);
            } else {
                assert(lex_lt(a[m].0, a[i].0));
                lemma_lex_lt_transitive(ka, kb, ka);
                lemma_lex_lt_irreflexive(ka);
            }
        }
    }
}

/// A scan is determined by the data and the range: two listings that are
/// both a scan of the same data over the same range are equal.
pub proof fn lemma_scan_unique(a: Listing, b: Listing, data: CfData, range: KeyRange<Seq<u8>>)
    requires
        is_scan_of(a, data, range),
        is_scan_of(b, data, range),
    ensures
        a == b,
{
    lemma_scans_agree_upto(a, b, data, range, a.len() as int);
    lemma_scans_agree_upto(b, a, data, range, b.len() as int);
    assert forall|i: int| 0 <= i < a.len() implies a[i] == b[i] by {
        assert(a[i].0 == b[i].0);
        assert(data[a[i].0] == a[i].1);
        assert(data[b[i].0] == b[i].1);
    }
    assert(a =~= b);
}

/// Scan order: consecutive keys that a scan delivers are in strict
/// lexicographic order.
pub proof fn lemma_scan_is_ordered(items: Listing, data: CfData, range: KeyRange<Seq<u8>>, i: int)
    requires
        is_scan_of(items, data, range),
        0 <= i,
        i + 1 < items.len(),
    ensures
        lex_lt(items[i].0, items[i + 1].0),
{
}

/// A scan for a prefix delivers what the scan from the prefix up to its
/// successor delivers; up to the end where the prefix has no successor.
pub proof fn lemma_scan_prefix_is_range_scan(
    prefix: Seq<u8>,
    data: CfData,
    by_prefix: Listing,
    by_range: Listing,
)
    requires
        is_scan_of(by_prefix, data, spec_prefix_range(prefix)),
        is_scan_of(
            by_range,
            data,
            KeyRange {
                start: Bound::Included(prefix),
                end: match spec_successor(prefix) {
                    Some(next) => Bound::Excluded(next),
                    None => Bound::Unbounded,
                },
            },
        ),
    ensures
        by_prefix == by_range,
{
    lemma_scan_unique(by_prefix, by_range, data, spec_prefix_range(prefix));
}

/// A scan for a prefix delivers every pair whose key begins with the
/// prefix.
pub proof fn lemma_scan_prefix_covers(prefix: Seq<u8>, data: CfData, items: Listing, key: Seq<u8>)
    requires
        is_scan_of(items, data, spec_prefix_range(prefix)),
        data.contains_key(key),
        prefix.is_prefix_of(key),
    ensures
        exists|i: int| 0 <= i < items.len() && #[trigger] items[i].0 == key,
{
    lemma_prefix_range_covers(prefix, key);
}

/// Where the last byte of the prefix is below `0xFF`, or every byte of it
/// is `0xFF`, a scan for the prefix delivers only pairs whose keys begin
/// with the prefix.
pub proof fn lemma_scan_prefix_exact(prefix: Seq<u8>, data: CfData, items: Listing, i: int)
    requires
        is_scan_of(items, data, spec_prefix_range(prefix)),
        last_incrementable(prefix) == prefix.len() - 1 || last_incrementable(prefix) == -1,
        0 <= i < items.len(),
    ensures
        prefix.is_prefix_of(items[i].0),
{
    lemma_prefix_range_exact(prefix, items[i].0);
}

} // verus!
