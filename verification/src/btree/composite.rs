//! Keys made of two keys, one behind the other.
//!
//! An index on such a key stores its rows under the outer key, then the
//! inner key, then the key of the object; more keys are chained by nesting.

use vstd::prelude::*;
use crate::btree::key::Key;

verus! {

/// The key made of what `outer` extracts followed by what `inner` extracts.
/// An object that either of them leaves out is left out.
pub struct CompositeKey<A, B> {
    /// The extractor of the front part.
    pub outer: A,
    /// The extractor of the back part.
    pub inner: B,
}

impl<A: Key, B: Key<Datum = A::Datum>> CompositeKey<A, B> {
    /// The key made of `outer` and `inner`.
    pub fn new(outer: A, inner: B) -> (key: Self)
        ensures
            key.outer == outer,
            key.inner == inner,
    {
        CompositeKey { outer, inner }
    }
}

impl<A: Key, B: Key<Datum = A::Datum>> Key for CompositeKey<A, B> {
    type Datum = A::Datum;

    open spec fn spec_key(&self, datum: &A::Datum) -> Option<Seq<u8>> {
        match (self.outer.spec_key(datum), self.inner.spec_key(datum)) {
            (Some(front), Some(back)) => if front.len() + back.len() <= usize::MAX {
                Some(front + back)
            } else {
                None
            },
            _ => None,
        }
    }

    open spec fn spec_key_len(&self, in_slice: Seq<u8>) -> nat {
        let front = self.outer.spec_key_len(in_slice);
        if front > in_slice.len() {
            front
        } else {
            let back = self.inner.spec_key_len(in_slice.skip(front as int));
            if front + back > usize::MAX {
                usize::MAX as nat
            } else {
                front + back
            }
        }
    }

    proof fn lemma_key_len(&self, datum: &A::Datum, object_key: Seq<u8>) {
        if let Some(extracted) = self.spec_key(datum) {
            let front = self.outer.spec_key(datum).unwrap();
            let back = self.inner.spec_key(datum).unwrap();
            let stored = extracted + object_key;
            assert(stored =~= front + (back + object_key));
            self.outer.lemma_key_len(datum, back + object_key);
            assert(stored.skip(front.len() as int) =~= back + object_key);
            self.inner.lemma_key_len(datum, object_key);
        }
    }

    open spec fn spec_len_hint(&self, datum: &A::Datum) -> usize {
        let front = self.outer.spec_len_hint(datum);
        let back = self.inner.spec_len_hint(datum);
        if front + back > usize::MAX {
            usize::MAX
        } else {
            (front + back) as usize
        }
    }

    fn len_hint(&self, datum: &A::Datum) -> (n: usize)
        ensures
            n == self.outer.spec_len_hint(datum) + self.inner.spec_len_hint(datum) || (n
                == usize::MAX && self.outer.spec_len_hint(datum) + self.inner.spec_len_hint(datum)
                > usize::MAX),
    {
        self.outer.len_hint(datum).saturating_add(self.inner.len_hint(datum))
    }

    fn extract_key(&self, datum: &A::Datum, key: &mut Vec<u8>) -> (indexed: bool) {
        if !self.outer.extract_key(datum, key) {
            return false;
        }
        let ghost front = self.outer.spec_key(datum).unwrap();
        let indexed = self.inner.extract_key(datum, key);
        let length = key.len();
        proof {
            if indexed {
                let back = self.inner.spec_key(datum).unwrap();
                assert(key@ =~= old(key)@ + (front + back));
                assert(length == key@.len());
            }
        }
        indexed
    }

    fn key_len(&self, in_slice: &[u8]) -> (n: usize) {
        let front = self.outer.key_len(in_slice);
        if front > in_slice.len() {
            return front;
        }
        let rest = vstd::slice::slice_subrange(in_slice, front, in_slice.len());
        assert(rest@ =~= in_slice@.skip(front as int));
        let back = self.inner.key_len(rest);
        match front.checked_add(back) {
            Some(n) => n,
            None => usize::MAX,
        }
    }
}

} // verus!
