use vstd::prelude::*;

verus! {

/// Outcome kinds of reading and parsing one locale document.
#[derive(Debug, Clone, Copy, PartialEq, Eq, Structural)]
pub enum ParseR3Error {
    Normal,
    FileNotFound,
    FailedToRead,
    KeyValueMismatch,
    BracketMismatch,
    InvalidUTF8Value,
    InvalidUTF8Path,
    NullPathProvided,
    DuplicateKeys,
    CapacityExceeded,
}

/// Outcome kinds of merging several locale tables.
#[derive(Debug, Clone, Copy, PartialEq, Eq, Structural)]
pub enum MergeTableError {
    Normal,
    NullTablePointer,
    FileNotFound,
    FailedToRead,
    KeyValueMismatch,
    BracketMismatch,
    InvalidUTF8Value,
    InvalidUTF8Path,
    NullPathProvided,
    DuplicateKeys,
    CapacityExceeded,
}

/// Outcome kinds of a lookup through a table handle.
#[derive(Debug, Clone, Copy, PartialEq, Eq, Structural)]
pub enum FindEntryError {
    Normal,
    NullTable,
    NullKeyPtr,
    NoEntryFound,
}

/// The merge error that reports the same condition as a parse error.
pub open spec fn merge_error_of(e: ParseR3Error) -> MergeTableError {
    match e {
        ParseR3Error::Normal => MergeTableError::Normal,
        ParseR3Error::FileNotFound => MergeTableError::FileNotFound,
        ParseR3Error::FailedToRead => MergeTableError::FailedToRead,
        ParseR3Error::KeyValueMismatch => MergeTableError::KeyValueMismatch,
        ParseR3Error::BracketMismatch => MergeTableError::BracketMismatch,
        ParseR3Error::InvalidUTF8Value => MergeTableError::InvalidUTF8Value,
        ParseR3Error::InvalidUTF8Path => MergeTableError::InvalidUTF8Path,
        ParseR3Error::NullPathProvided => MergeTableError::NullPathProvided,
        ParseR3Error::DuplicateKeys => MergeTableError::DuplicateKeys,
        ParseR3Error::CapacityExceeded => MergeTableError::CapacityExceeded,
    }
}

impl From<ParseR3Error> for MergeTableError {
    fn from(err: ParseR3Error) -> (r: MergeTableError)
        ensures
            r == merge_error_of(err),
    {
        match err {
            ParseR3Error::Normal => MergeTableError::Normal,
            ParseR3Error::FileNotFound => MergeTableError::FileNotFound,
            ParseR3Error::FailedToRead => MergeTableError::FailedToRead,
            ParseR3Error::KeyValueMismatch => MergeTableError::KeyValueMismatch,
            ParseR3Error::BracketMismatch => MergeTableError::BracketMismatch,
            ParseR3Error::InvalidUTF8Value => MergeTableError::InvalidUTF8Value,
            ParseR3Error::InvalidUTF8Path => MergeTableError::InvalidUTF8Path,
            ParseR3Error::NullPathProvided => MergeTableError::NullPathProvided,
            ParseR3Error::DuplicateKeys => MergeTableError::DuplicateKeys,
            ParseR3Error::CapacityExceeded => MergeTableError::CapacityExceeded,
        }
    }
}

impl vstd::std_specs::convert::FromSpecImpl<ParseR3Error> for MergeTableError {
    open spec fn obeys_from_spec() -> bool {
        true
    }

    open spec fn from_spec(v: ParseR3Error) -> MergeTableError {
        merge_error_of(v)
    }
}

} // verus!
