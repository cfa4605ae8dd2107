//! The permission level of a transaction.

use vstd::prelude::*;

verus! {

/// What a transaction may do. It is fixed when the transaction starts.
#[derive(Clone, Copy, PartialEq, Eq, Structural, Debug)]
pub enum Mode {
    /// Reads only: every write fails.
    ReadOnly,
    /// Reads and writes.
    ReadWrite,
    /// Reads and writes, and exclusive locks for rebuilding an index.
    IndexRebuilding,
}

impl Mode {
    /// Whether a transaction in this mode may write.
    pub open spec fn spec_allows_writes(self) -> bool {
        self != Mode::ReadOnly
    }

    /// Whether a transaction in this mode may write.
    #[verifier::when_used_as_spec(spec_allows_writes)]
    pub fn allows_writes(self) -> (r: bool)
        ensures
            r == self.spec_allows_writes(),
    {
        match self {
            Mode::ReadOnly => false,
            Mode::ReadWrite => true,
            Mode::IndexRebuilding => true,
        }
    }

    /// The name of the mode.
    pub open spec fn spec_name(self) -> Seq<char> {
        match self {
            Mode::ReadOnly => "ReadOnly"@,
            Mode::ReadWrite => "ReadWrite"@,
            Mode::IndexRebuilding => "IndexRebuilding"@,
        }
    }

    /// The name of the mode.
    pub fn name(self) -> (r: &'static str)
        ensures
            r@ == self.spec_name(),
    {
        match self {
            Mode::ReadOnly => "ReadOnly",
            Mode::ReadWrite => "ReadWrite",
            Mode::IndexRebuilding => "IndexRebuilding",
        }
    }
}

} // verus!
