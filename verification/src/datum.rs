//! Application objects that are stored as bytes.

use vstd::prelude::*;
use crate::backend::Backend;
use crate::errors::Error;
use crate::indexer::Indexer;

verus! {

/// A type of objects, each stored as bytes under a key in the column family
/// of the type.
pub trait Datum: Sized + 'static {
    /// The name of the column family that holds the objects.
    const CF: &'static str;

    /// The object that `datum` stands for, where it stands for one. A type
    /// that does not say is taken at its word: `from_slice` is what decides.
    open spec fn spec_from_slice(datum: Seq<u8>) -> Option<Self> {
        arbitrary()
    }

    /// Reads an object from its stored bytes.
    fn from_slice(datum: &[u8]) -> (r: Result<Self, Error>)
        ensures
            r is Ok <==> Self::spec_from_slice(datum@) is Some,
            r matches Ok(object) ==> Self::spec_from_slice(datum@) == Some(object),
    ;
}

/// A type of objects with indexes that every write keeps up to date.
pub trait IndexedDatum<B: Backend>: Datum {
    /// The indexes, in the order in which a write maintains them.
    const INDEXES: &'static [&'static dyn Indexer<B>];
}

} // verus!
