//! How the key of an index row is extracted from an object.

use vstd::prelude::*;
use crate::datum::Datum;
use crate::errors::Error;

verus! {

/// The object that `slice` stands for, where it stands for one, as the
/// datum type of `K` reads it.
pub open spec fn parsed<K: Key>(slice: Seq<u8>) -> Option<K::Datum> {
    <K::Datum as Datum>::spec_from_slice(slice)
}

/// The extraction of a key from the objects of one type.
///
/// A row of the index is stored under the extracted key followed by the key
/// of the object, and `key_len` finds the boundary between the two again.
pub trait Key: Sized + 'static {
    /// The type of the objects.
    type Datum: Datum;

    /// The key extracted from `datum`, or nothing where `datum` is left out
    /// of the index.
    spec fn spec_key(&self, datum: &Self::Datum) -> Option<Seq<u8>>;

    /// The length of the extracted key at the front of the stored key
    /// `in_slice`.
    spec fn spec_key_len(&self, in_slice: Seq<u8>) -> nat;

    /// The boundary is found again: in a stored key made of the key
    /// extracted from `datum` and of `object_key`, the extracted key has the
    /// length that `spec_key_len` gives.
    proof fn lemma_key_len(&self, datum: &Self::Datum, object_key: Seq<u8>)
        ensures
            self.spec_key(datum) matches Some(extracted) ==> self.spec_key_len(
                extracted + object_key,
            ) == extracted.len(),
    ;

    /// The length that the extractor expects of the key of `datum`.
    spec fn spec_len_hint(&self, datum: &Self::Datum) -> usize;

    /// A guess at the length of the key that will be extracted from
    /// `datum`, by which room is made for it: the length that the extractor
    /// expects.
    fn len_hint(&self, datum: &Self::Datum) -> (n: usize)
        ensures
            n == self.spec_len_hint(datum),
    ;

    /// Puts the key extracted from `datum` behind what `key` holds, and
    /// returns whether `datum` is part of the index.
    fn extract_key(&self, datum: &Self::Datum, key: &mut Vec<u8>) -> (indexed: bool)
        ensures
            indexed == (self.spec_key(datum) is Some),
            indexed ==> final(key)@ == old(key)@ + self.spec_key(datum).unwrap(),
    ;

    /// A guess at the length of the key that will be extracted from the
    /// object stored as `datum`: the guess that `len_hint` makes for that
    /// object. It fails only where `datum` does not parse.
    fn len_hint_from_slice(&self, datum: &[u8]) -> (r: Result<usize, Error>)
        ensures
            r is Err ==> <Self::Datum as Datum>::spec_from_slice(datum@) is None,
            <Self::Datum as Datum>::spec_from_slice(datum@) matches Some(object) ==> {
                &&& r matches Ok(n)
                &&& n == self.spec_len_hint(&object)
            },
        default_ensures
            r is Ok <==> <Self::Datum as Datum>::spec_from_slice(datum@) is Some,
            r matches Err(e) ==> e matches Error::Context { msg, .. } && msg
                == "Failed to parse datum",
    {
        match Self::Datum::from_slice(datum) {
            Ok(object) => Ok(self.len_hint(&object)),
            Err(e) => Err(Error::in_step("Failed to parse datum", e)),
        }
    }

    /// Puts the key extracted from the object stored as `datum` behind what
    /// `key` holds, and returns whether the object is part of the index. It
    /// fails where `datum` does not parse, and only there.
    fn extract_key_from_slice(&self, datum: &[u8], key: &mut Vec<u8>) -> (r: Result<bool, Error>)
        ensures
            r is Ok <==> <Self::Datum as Datum>::spec_from_slice(datum@) is Some,
            r matches Ok(indexed) ==> {
                &&& indexed == (self.spec_key(&<Self::Datum as Datum>::spec_from_slice(datum@).unwrap()) is Some)
                &&& indexed ==> final(key)@ == old(key)@ + self.spec_key(
                    &<Self::Datum as Datum>::spec_from_slice(datum@).unwrap(),
                ).unwrap()
            },
    {
        match Self::Datum::from_slice(datum) {
            Ok(object) => Ok(self.extract_key(&object, key)),
            Err(e) => Err(Error::in_step("Failed to parse datum", e)),
        }
    }

    /// The length of the extracted key at the front of the stored key
    /// `in_slice`.
    fn key_len(&self, in_slice: &[u8]) -> (n: usize)
        ensures
            n == self.spec_key_len(in_slice@),
    ;
}

} // verus!
