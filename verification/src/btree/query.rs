//! What can be asked of a B-tree index.

use vstd::prelude::*;
use crate::bytes;
use crate::range::{spec_prefix_range, KeyRange};

verus! {

/// A question: which stored keys to walk.
pub enum Query {
    /// The rows whose extracted key is the given one.
    Equal(Vec<u8>),
    /// The rows whose stored key begins with the given bytes.
    Prefix(Vec<u8>),
    /// The rows whose stored key lies in the given range.
    Range(KeyRange<Vec<u8>>),
}

/// A question to a B-tree index.
pub struct BTreeQuery {
    query: Query,
}

impl BTreeQuery {
    /// The question itself.
    pub closed spec fn query(&self) -> Query {
        self.query
    }

    /// The range of stored keys that the question walks.
    pub open spec fn spec_range(&self) -> KeyRange<Seq<u8>> {
        match self.query() {
            Query::Equal(key) => spec_prefix_range(key@),
            Query::Prefix(prefix) => spec_prefix_range(prefix@),
            Query::Range(range) => range@,
        }
    }

    /// Asks for the rows whose extracted key is `key`.
    pub fn equal(key: &[u8]) -> (q: Self)
        ensures
            q.query() matches Query::Equal(k) && k@ == key@,
    {
        BTreeQuery { query: Query::Equal(bytes::to_vec(key)) }
    }

    /// Asks for the rows whose stored key begins with `prefix`.
    pub fn prefix(prefix: &[u8]) -> (q: Self)
        ensures
            q.query() matches Query::Prefix(p) && p@ == prefix@,
    {
        BTreeQuery { query: Query::Prefix(bytes::to_vec(prefix)) }
    }

    /// Asks for the rows whose stored key lies in `range`.
    pub fn range(range: KeyRange<Vec<u8>>) -> (q: Self)
        ensures
            q.query() == Query::Range(range),
    {
        BTreeQuery { query: Query::Range(range) }
    }

    /// The question itself.
    pub fn get(&self) -> (q: &Query)
        ensures
            *q == self.query(),
    {
        &self.query
    }
}

} // verus!
