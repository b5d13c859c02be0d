//! The errors that the library reports.
//!
//! The library works on the image of a file and does no input or output
//! of its own, so what can fail is reading a record and keeping the
//! tree's invariants. Failures of the file itself and of its lock belong
//! to whoever reads and writes the file.

use vstd::prelude::*;

verus! {

/// Why an operation of the store failed.
#[derive(Debug, Clone, Copy, PartialEq, Eq, Structural)]
pub enum DbError {
    /// Bytes could not be encoded or decoded: the file is corrupt or was
    /// written by another codec.
    Codec,
    /// An internal invariant was violated, such as faulting an agent that
    /// holds neither a payload nor an address, or a size that cannot
    /// count one key more or less.
    Invariant,
}

impl DbError {
    /// A short description of the error.
    pub fn message(&self) -> (text: String)
        ensures
            text@ == (match *self {
                DbError::Codec => "a record could not be encoded or decoded"@,
                DbError::Invariant => "an internal invariant was violated"@,
            }),
    {
        match self {
            DbError::Codec => "a record could not be encoded or decoded".to_owned(),
            DbError::Invariant => "an internal invariant was violated".to_owned(),
        }
    }
}

} // verus!
