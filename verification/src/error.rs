//! The closed error taxonomy of the engine.
//!
//! Every operation reports failure through one of these variants; none of
//! the engine's verified functions panics.

use vstd::prelude::*;

verus! {

/// Errors raised by the log-file layer.
#[derive(Debug, Clone, Copy, PartialEq, Eq, Structural)]
pub enum DataFileError {
    /// The store was opened against a path that is not a directory.
    ErrNotADirectory,
    /// A positional read asked for bytes beyond the end of the log.
    ErrIncompleteRead,
    /// An append transferred fewer bytes than the record's encoding.
    ErrIncompleteWrite,
    /// A record's framing could not be decoded from the bytes at hand.
    ErrMalformedRecord,
}

/// Errors raised at the store boundary.
#[derive(Debug, Clone, Copy, PartialEq, Eq, Structural)]
pub enum KvError {
    /// `remove` was called on a key with no live value.
    KeyNotFound,
    /// `set` was called with an empty value, which is reserved for
    /// tombstones.
    EmptyValue,
}

impl DataFileError {
    /// A human-readable description of the error.
    pub fn message(&self) -> (res: String)
        ensures
            *self == DataFileError::ErrNotADirectory ==> res@ =~= "Invalid path. Require a path to directory"@,
            *self == DataFileError::ErrIncompleteRead ==> res@ =~= "Incomplete read"@,
            *self == DataFileError::ErrIncompleteWrite ==> res@ =~= "Incomplete write"@,
            *self == DataFileError::ErrMalformedRecord ==> res@ =~= "Malformed record"@,
    {
        match self {
            DataFileError::ErrNotADirectory => "Invalid path. Require a path to directory".to_owned(),
            DataFileError::ErrIncompleteRead => "Incomplete read".to_owned(),
            DataFileError::ErrIncompleteWrite => "Incomplete write".to_owned(),
            DataFileError::ErrMalformedRecord => "Malformed record".to_owned(),
        }
    }
}

impl KvError {
    /// A human-readable description of the error.
    pub fn message(&self) -> (res: String)
        ensures
            *self == KvError::KeyNotFound ==> res@ =~= "Key not found"@,
            *self == KvError::EmptyValue ==> res@ =~= "Value cannot be empty"@,
    {
        match self {
            KvError::KeyNotFound => "Key not found".to_owned(),
            KvError::EmptyValue => "Value cannot be empty".to_owned(),
        }
    }
}

} // verus!
