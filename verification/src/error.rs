//! The errors a store operation can report.

use vstd::prelude::*;

verus! {

/// The failures a store operation can report to its caller.
#[derive(Clone, Copy, Debug, PartialEq, Eq, Structural)]
pub enum KvsError {
    /// The log's bytes could not be read.
    FileReadError,
    /// A byte range that should hold one whole record does not decode to one.
    ParseError,
    /// `remove` named a key that the store does not hold.
    KeyNotFound,
    /// An internal invariant was found broken.
    Unknown,
    /// No command was given.
    NoCommand,
}

impl KvsError {
    /// The message this error spells, as a character sequence.
    pub open spec fn spec_message(self) -> Seq<char> {
        match self {
            KvsError::FileReadError => "Failed to read file"@,
            KvsError::ParseError => "Failed to parse file"@,
            KvsError::KeyNotFound => "Key not found"@,
            KvsError::Unknown => "Unknown error occurred"@,
            KvsError::NoCommand => "No command specified"@,
        }
    }

    /// A short human-readable description, for the embedding program to print.
    pub fn message(&self) -> (r: &'static str)
        ensures
            r@ == self.spec_message(),
    {
        match self {
            KvsError::FileReadError => "Failed to read file",
            KvsError::ParseError => "Failed to parse file",
            KvsError::KeyNotFound => "Key not found",
            KvsError::Unknown => "Unknown error occurred",
            KvsError::NoCommand => "No command specified",
        }
    }
}

} // verus!
