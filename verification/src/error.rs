//! The error types of the engine's public operations.

use vstd::prelude::*;

verus! {

/// Error returned by `open`.
#[derive(Debug)]
#[non_exhaustive]
pub struct OpenError {
    pub kind: OpenErrorKind,
    pub rustcask_dir: String,
}

#[derive(Clone, Copy, Debug, PartialEq, Eq, Structural)]
pub enum OpenErrorKind {
    /// An underlying file operation failed.
    Io,
    /// The open target is missing or is not a directory.
    BadDirectory,
    /// A data file did not decode as a sequence of complete records.
    Corrupt,
}

/// Error returned by `set`.
#[derive(Debug)]
#[non_exhaustive]
pub struct SetError {
    pub kind: SetErrorKind,
    pub key: Vec<u8>,
}

#[derive(Clone, Copy, Debug, PartialEq, Eq, Structural)]
pub enum SetErrorKind {
    Serialize,
    Io,
}

/// Error returned by `remove`.
#[derive(Debug)]
#[non_exhaustive]
pub struct RemoveError {
    pub kind: RemoveErrorKind,
    pub key: Vec<u8>,
}

#[derive(Clone, Copy, Debug, PartialEq, Eq, Structural)]
pub enum RemoveErrorKind {
    Io,
    /// The record holding the previous value at the key did not decode.
    Deserialize,
}

/// Error returned by `get`.
#[derive(Debug)]
#[non_exhaustive]
pub struct GetError {
    pub kind: GetErrorKind,
    pub key: Vec<u8>,
}

#[derive(Clone, Copy, Debug, PartialEq, Eq, Structural)]
pub enum GetErrorKind {
    Io,
    Deserialize,
}

/// Error returned by `merge`.
#[derive(Debug)]
#[non_exhaustive]
pub struct MergeError {
    pub kind: MergeErrorKind,
    /// Merge writes new data files. This field holds the first new generation
    /// created by the merge; data files of earlier generations are still
    /// consistent and correct.
    pub merge_generation: u64,
}

#[derive(Clone, Copy, Debug, PartialEq, Eq, Structural)]
pub enum MergeErrorKind {
    Io,
    OutsideMergeWindow,
}

} // verus!
