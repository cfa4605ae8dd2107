//! Extracted keys that all have the same length.

use vstd::prelude::*;
use crate::btree::key::Key;
use crate::datum::Datum;
use crate::errors::Error;

verus! {

/// The extraction of a key of a fixed length into a buffer of that length.
pub trait FixedLenKeyExtractor: Sized + 'static {
    /// The type of the objects.
    type Datum: Datum;

    /// What `extract` writes for `datum` into a buffer of `len` bytes, or
    /// nothing where `datum` is left out of the index. An extractor that
    /// does not say is taken at its word: `extract` is what decides.
    open spec fn spec_extract(&self, datum: &Self::Datum, len: nat) -> Option<Seq<u8>> {
        arbitrary()
    }

    /// Writes the key of `datum` over `key` and returns whether `datum` is
    /// part of the index.
    fn extract(&self, datum: &Self::Datum, key: &mut [u8]) -> (indexed: bool)
        ensures
            final(key)@.len() == old(key)@.len(),
            indexed == (self.spec_extract(datum, old(key)@.len()) is Some),
            indexed ==> final(key)@ == self.spec_extract(datum, old(key)@.len()).unwrap(),
    ;

    /// Writes the key of the object stored as `slice` over `key` and
    /// returns whether the object is part of the index. It fails where
    /// `slice` does not parse, and only there.
    fn extract_from_slice(&self, slice: &[u8], key: &mut [u8]) -> (r: Result<bool, Error>)
        ensures
            final(key)@.len() == old(key)@.len(),
            r is Ok <==> <Self::Datum as Datum>::spec_from_slice(slice@) is Some,
            r matches Ok(indexed) ==> {
                &&& indexed == (self.spec_extract(
                    &<Self::Datum as Datum>::spec_from_slice(slice@).unwrap(),
                    old(key)@.len(),
                ) is Some)
                &&& indexed ==> final(key)@ == self.spec_extract(
                    &<Self::Datum as Datum>::spec_from_slice(slice@).unwrap(),
                    old(key)@.len(),
                ).unwrap()
            },
    {
        match Self::Datum::from_slice(slice) {
            Ok(datum) => Ok(self.extract(&datum, key)),
            Err(e) => Err(e),
        }
    }
}

/// A key of `len` bytes, written by an extractor.
pub struct FixedLenKey<E> {
    /// The length of every extracted key.
    pub len: usize,
    /// What writes the keys.
    pub extractor: E,
}

/// A buffer of `len` zero bytes.
fn zeroes(len: usize) -> (buffer: Vec<u8>)
    ensures
        buffer@.len() == len,
        forall|i: int| 0 <= i < len ==> buffer@[i] == 0,
{
    let mut buffer: Vec<u8> = Vec::new();
    let mut i: usize = 0;
    while i < len
        invariant
            i <= len,
            buffer@.len() == i,
            forall|j: int| 0 <= j < i ==> buffer@[j] == 0,
        decreases len - i,
    {
        buffer.push(0);
        i += 1;
    }
    buffer
}

impl<E: FixedLenKeyExtractor> FixedLenKey<E> {
    /// The length of every extracted key.
    pub open spec fn spec_len(&self) -> usize {
        self.len
    }

    /// The extractor.
    pub open spec fn extractor(&self) -> E {
        self.extractor
    }

    /// The key of `len` bytes that `extractor` writes.
    pub fn new(len: usize, extractor: E) -> (key: Self)
        ensures
            key.spec_len() == len,
            key.extractor() == extractor,
    {
        FixedLenKey { len, extractor }
    }
}

impl<E: FixedLenKeyExtractor> Key for FixedLenKey<E> {
    type Datum = E::Datum;

    open spec fn spec_key(&self, datum: &E::Datum) -> Option<Seq<u8>> {
        match self.extractor().spec_extract(datum, self.spec_len() as nat) {
            Some(extracted) => if extracted.len() == self.spec_len() {
                Some(extracted)
            } else {
                None
            },
            None => None,
        }
    }

    open spec fn spec_key_len(&self, in_slice: Seq<u8>) -> nat {
        self.spec_len() as nat
    }

    proof fn lemma_key_len(&self, datum: &E::Datum, object_key: Seq<u8>) {
    }

    open spec fn spec_len_hint(&self, datum: &E::Datum) -> usize {
        self.spec_len()
    }

    fn len_hint(&self, datum: &E::Datum) -> (n: usize)
        ensures
            n == self.spec_len(),
    {
        self.len
    }

    fn extract_key(&self, datum: &E::Datum, key: &mut Vec<u8>) -> (indexed: bool) {
        let mut buffer = zeroes(self.len);
        let indexed = self.extractor.extract(datum, buffer.as_mut_slice());
        if indexed {
            key.extend_from_slice(buffer.as_slice());
        }
        indexed
    }

    fn len_hint_from_slice(&self, datum: &[u8]) -> (r: Result<usize, Error>)
        ensures
            r matches Ok(n) && n == self.spec_len(),
    {
        Ok(self.len)
    }

    fn extract_key_from_slice(&self, datum: &[u8], key: &mut Vec<u8>) -> (r: Result<bool, Error>) {
        let mut buffer = zeroes(self.len);
        match self.extractor.extract_from_slice(datum, buffer.as_mut_slice()) {
            Ok(indexed) => {
                if indexed {
                    key.extend_from_slice(buffer.as_slice());
                }
                Ok(indexed)
            },
            Err(e) => Err(e),
        }
    }

    fn key_len(&self, in_slice: &[u8]) -> (n: usize) {
        self.len
    }
}

} // verus!
