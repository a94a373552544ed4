//! The ways in which an operation of the store can fail.

use vstd::prelude::*;

verus! {

/// Why an operation did not do what was asked.
#[derive(Debug, Clone, Copy, PartialEq, Eq, Structural)]
pub enum StoreError {
    /// The data directory is missing.
    Configuration,
    /// A page could not be read: nothing was ever written under its id.
    Io,
    /// A value of one kind was offered to a column of the other kind.
    TypeMismatch,
    /// The place asked for lies beyond what page and row numbers can express.
    OutOfRange,
}

impl StoreError {
    /// A short description of the failure.
    pub fn message(&self) -> (text: &'static str)
        ensures
            text@ == error_text(*self),
    {
        match self {
            StoreError::Configuration => "data directory is missing",
            StoreError::Io => "page could not be read",
            StoreError::TypeMismatch => "value does not match the column's type",
            StoreError::OutOfRange => "position is out of range",
        }
    }
}

/// The text of `message`.
pub open spec fn error_text(e: StoreError) -> Seq<char> {
    match e {
        StoreError::Configuration => "data directory is missing"@,
        StoreError::Io => "page could not be read"@,
        StoreError::TypeMismatch => "value does not match the column's type"@,
        StoreError::OutOfRange => "position is out of range"@,
    }
}

} // verus!
