//! Errors of the storage layer.

use vstd::prelude::*;
use crate::small_string::BadSmallStringError;
use crate::str_hash::StrHash;

verus! {

/// The stored data does not follow the storage invariants.
#[derive(Debug)]
pub enum CorruptionError {
    /// A term buffer starts with a byte that is no term type id.
    InvalidTypeId,
    /// A stored inline string is not valid.
    InvalidSmallString(BadSmallStringError),
    /// The string store holds no string for this hash.
    MissingString(StrHash),
    /// Another inconsistency, described by the message.
    Msg(String),
}

/// An error of the storage layer.
#[derive(Debug)]
pub enum StorageError {
    /// A buffer ended before the value it holds.
    UnexpectedEof,
    /// The stored data is corrupted.
    Corruption(CorruptionError),
    /// Another error, described by the message.
    Other(String),
}

} // verus!
