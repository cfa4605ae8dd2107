//! Key ranges, and the range that stands for a key prefix.

use vstd::prelude::*;
use crate::bytes::{
    lex_le, lex_lt, lemma_lex_lt_skip, lemma_lex_lt_total, lemma_lex_lt_asymmetric,
    lemma_prefix_not_after,
};
use crate::bytes;

verus! {

/// One end of a range of keys.
pub enum Bound<T> {
    Included(T),
    Excluded(T),
    Unbounded,
}

/// A range of keys, with any combination of inclusive, exclusive and
/// unbounded ends.
pub struct KeyRange<T> {
    pub start: Bound<T>,
    pub end: Bound<T>,
}

impl View for Bound<Vec<u8>> {
    type V = Bound<Seq<u8>>;

    open spec fn view(&self) -> Bound<Seq<u8>> {
        match self {
            Bound::Included(k) => Bound::Included(k@),
            Bound::Excluded(k) => Bound::Excluded(k@),
            Bound::Unbounded => Bound::Unbounded,
        }
    }
}

impl View for KeyRange<Vec<u8>> {
    type V = KeyRange<Seq<u8>>;

    open spec fn view(&self) -> KeyRange<Seq<u8>> {
        KeyRange { start: self.start@, end: self.end@ }
    }
}

impl KeyRange<Seq<u8>> {
    /// Whether `key` is not before the start of the range.
    pub open spec fn admits_from_start(self, key: Seq<u8>) -> bool {
        match self.start {
            Bound::Included(s) => lex_le(s, key),
            Bound::Excluded(s) => lex_lt(s, key),
            Bound::Unbounded => true,
        }
    }

    /// Whether `key` is not after the end of the range.
    pub open spec fn admits_to_end(self, key: Seq<u8>) -> bool {
        match self.end {
            Bound::Included(e) => lex_le(key, e),
            Bound::Excluded(e) => lex_lt(key, e),
            Bound::Unbounded => true,
        }
    }

    /// Whether `key` lies in the range.
    pub open spec fn contains(self, key: Seq<u8>) -> bool {
        self.admits_from_start(key) && self.admits_to_end(key)
    }

    /// The range of every key.
    pub open spec fn full() -> Self {
        KeyRange { start: Bound::Unbounded, end: Bound::Unbounded }
    }
}

impl KeyRange<Vec<u8>> {
    /// The range from `start` to `end`.
    pub fn new(start: Bound<Vec<u8>>, end: Bound<Vec<u8>>) -> (r: Self)
        ensures
            r.start == start,
            r.end == end,
    {
        KeyRange { start, end }
    }

    /// The range of every key.
    pub fn all() -> (r: Self)
        ensures
            r@ == KeyRange::<Seq<u8>>::full(),
    {
        KeyRange { start: Bound::Unbounded, end: Bound::Unbounded }
    }

    /// Whether `key` lies in the range.
    pub fn contains(&self, key: &[u8]) -> (r: bool)
        ensures
            r == self@.contains(key@),
    {
        let from_start = match &self.start {
            Bound::Included(s) => !bytes::lt(key, s.as_slice()),
            Bound::Excluded(s) => bytes::lt(s.as_slice(), key),
            Bound::Unbounded => true,
        };
        let to_end = match &self.end {
            Bound::Included(e) => !bytes::lt(e.as_slice(), key),
            Bound::Excluded(e) => bytes::lt(key, e.as_slice()),
            Bound::Unbounded => true,
        };
        proof {
            if let Bound::Included(s) = self@.start {
                lemma_le_is_not_gt(s, key@);
            }
            if let Bound::Included(e) = self@.end {
                lemma_le_is_not_gt(key@, e);
            }
        }
        from_start && to_end
    }
}

/// `a` is at most `b` exactly where `b` does not sort before `a`.
pub proof fn lemma_le_is_not_gt(a: Seq<u8>, b: Seq<u8>)
    ensures
        lex_le(a, b) == !lex_lt(b, a),
{
    lemma_lex_lt_total(a, b);
    if lex_lt(a, b) {
        lemma_lex_lt_asymmetric(a, b);
    }
    if a == b {
        bytes::lemma_lex_lt_irreflexive(a);
    }
}

/// The position of the last byte of `p` that is below `0xFF`, or `-1` where
/// every byte is `0xFF`.
pub open spec fn last_incrementable(p: Seq<u8>) -> int
    decreases p.len(),
{
    if p.len() == 0 {
        -1
    } else if p.last() < 0xFF {
        p.len() - 1
    } else {
        last_incrementable(p.drop_last())
    }
}

/// The byte string of the same length that follows `p` when both are read
/// as big-endian numbers: the last byte below `0xFF` is incremented and the
/// `0xFF` bytes behind it become `0`. There is none where every byte of `p`
/// is `0xFF`.
pub open spec fn spec_successor(p: Seq<u8>) -> Option<Seq<u8>> {
    let i = last_incrementable(p);
    if i < 0 {
        None
    } else {
        Some(
            Seq::new(
                p.len(),
                |j: int|
                    if j < i {
                        p[j]
                    } else if j == i {
                        (p[i] + 1) as u8
                    } else {
                        0u8
                    },
            ),
        )
    }
}

/// The range that a scan for the prefix `p` walks: from `p` itself up to,
/// and without, its successor; without an upper end where `p` has no
/// successor.
pub open spec fn spec_prefix_range(p: Seq<u8>) -> KeyRange<Seq<u8>> {
    KeyRange {
        start: Bound::Included(p),
        end: match spec_successor(p) {
            Some(n) => Bound::Excluded(n),
            None => Bound::Unbounded,
        },
    }
}

/// What `last_incrementable` finds: a byte below `0xFF` with only `0xFF`
/// bytes behind it.
pub proof fn lemma_last_incrementable(p: Seq<u8>)
    ensures
        -1 <= last_incrementable(p) < p.len(),
        last_incrementable(p) >= 0 ==> p[last_incrementable(p)] < 0xFF,
        forall|j: int| last_incrementable(p) < j < p.len() ==> p[j] == 0xFF,
    decreases p.len(),
{
    if p.len() > 0 && p.last() == 0xFF {
        lemma_last_incrementable(p.drop_last());
        assert forall|j: int| last_incrementable(p) < j < p.len() implies p[j] == 0xFF by {
            if j < p.len() - 1 {
                assert(p[j] == p.drop_last()[j]);
            }
        }
    }
}

/// The successor of `prefix`, if it has one.
pub fn successor(prefix: &[u8]) -> (r: Option<Vec<u8>>)
    ensures
        r is Some <==> spec_successor(prefix@) is Some,
        r matches Some(n) ==> Some(n@) == spec_successor(prefix@),
{
    let mut next = bytes::to_vec(prefix);
    let mut i: usize = next.len();
    proof {
        lemma_last_incrementable(prefix@);
    }
    while i > 0
        invariant
            i <= prefix.len(),
            next.len() == prefix.len(),
            last_incrementable(prefix@) < i,
            forall|j: int| 0 <= j < i ==> next@[j] == prefix@[j],
            forall|j: int| i <= j < prefix.len() ==> next@[j] == 0,
        decreases i,
    {
        i -= 1;
        if next[i] < 0xFF {
            let b: u8 = next[i];
            next.set(i, b + 1);
            assert(last_incrementable(prefix@) == i) by {
                lemma_last_incrementable(prefix@);
            }
            assert(next@ =~= spec_successor(prefix@).unwrap());
            return Some(next);
        } else {
            next.set(i, 0);
            assert(last_incrementable(prefix@) != i) by {
                lemma_last_incrementable(prefix@);
            }
        }
    }
    None
}

/// The range that stands for the prefix `prefix`.
pub fn prefix_range(prefix: &[u8]) -> (r: KeyRange<Vec<u8>>)
    ensures
        r@ == spec_prefix_range(prefix@),
{
    let start = Bound::Included(bytes::to_vec(prefix));
    let end = match successor(prefix) {
        Some(n) => Bound::Excluded(n),
        None => Bound::Unbounded,
    };
    KeyRange { start, end }
}

/// Every key that begins with `p` lies in the range that stands for `p`.
pub proof fn lemma_prefix_range_covers(p: Seq<u8>, key: Seq<u8>)
    requires
        p.is_prefix_of(key),
    ensures
        spec_prefix_range(p).contains(key),
{
    lemma_prefix_not_after(p, key);
    lemma_last_incrementable(p);
    let i = last_incrementable(p);
    if i >= 0 {
        let n = spec_successor(p).unwrap();
        assert(key.subrange(0, i) =~= n.subrange(0, i));
        lemma_lex_lt_skip(key, n, i);
        assert(key.skip(i)[0] == p[i]);
        assert(n.skip(i)[0] == p[i] + 1);
    }
}

/// Where `a` sorts before `b`, the two agree up to a position at which `a`
/// ends or holds the smaller byte.
pub proof fn lemma_lex_lt_first_difference(a: Seq<u8>, b: Seq<u8>) -> (d: int)
    requires
        lex_lt(a, b),
    ensures
        0 <= d <= a.len(),
        d < b.len(),
        a.subrange(0, d) == b.subrange(0, d),
        d == a.len() || a[d] < b[d],
    decreases a.len(),
{
    if a.len() == 0 {
        assert(a.subrange(0, 0) =~= b.subrange(0, 0));
        0
    } else if a[0] != b[0] {
        assert(a.subrange(0, 0) =~= b.subrange(0, 0));
        0
    } else {
        let d = lemma_lex_lt_first_difference(a.drop_first(), b.drop_first());
        assert(a.subrange(0, d + 1) =~= seq![a[0]] + a.drop_first().subrange(0, d));
        assert(b.subrange(0, d + 1) =~= seq![b[0]] + b.drop_first().subrange(0, d));
        d + 1
    }
}

/// Where the last byte of `p` is below `0xFF`, or every byte of `p` is
/// `0xFF`, the range that stands for `p` holds the keys that begin with `p`
/// and no others.
pub proof fn lemma_prefix_range_exact(p: Seq<u8>, key: Seq<u8>)
    requires
        last_incrementable(p) == p.len() - 1 || last_incrementable(p) == -1,
        spec_prefix_range(p).contains(key),
    ensures
        p.is_prefix_of(key),
{
    lemma_last_incrementable(p);
    if p != key {
        let d = lemma_lex_lt_first_difference(p, key);
        if d == p.len() {
            assert(p =~= key.subrange(0, d));
        } else {
            // `key` holds a larger byte than `p` at position `d`.
            let i = last_incrementable(p);
            if i < 0 {
                assert(p[d] == 0xFF);
            } else {
                let n = spec_successor(p).unwrap();
                assert(n.subrange(0, d) =~= p.subrange(0, d));
                let e = lemma_lex_lt_first_difference(key, n);
                if e < d {
                    assert(key.subrange(0, d)[e] == n.subrange(0, d)[e]);
                    assert(key.subrange(0, e) =~= key.subrange(0, d).subrange(0, e));
                } else if e > d {
                    assert(key.subrange(0, e)[d] == n.subrange(0, e)[d]);
                } else {
                }
            }
        }
    }
}

} // verus!
