//! The typed failure taxonomy of the store and its protocols.

use vstd::prelude::*;

verus! {

/// Why a store or protocol operation failed.
#[derive(Copy, Clone, Debug, PartialEq, Eq, Structural)]
pub enum StoreError {
    /// A hash text was not 128 hexadecimal characters.
    InvalidHash,
    /// A stored object's header could not be parsed.
    CorruptObject,
    /// The caller expected one object kind and the header declared another.
    KindMismatch,
    /// No object with the given hash exists.
    NotFound,
    /// An upload's counted body length differed from its declared size.
    LengthMismatch,
    /// An upload's computed digest differed from the hash it was addressed to.
    HashMismatch,
    /// A path that had to be a directory was not one.
    NotADirectory,
    /// A restore destination already held entries.
    NotEmptyDirectory,
    /// An upload lacked a parsable kind or size header.
    MissingOrInvalidHeader,
}

impl StoreError {
    /// A short description of the failure.
    pub fn message(&self) -> (r: &'static str) {
        match self {
            StoreError::InvalidHash => "Invalid Sha512 hash",
            StoreError::CorruptObject => "Unable to read object header",
            StoreError::KindMismatch => "Object has a different kind than expected",
            StoreError::NotFound => "No object with this hash exists",
            StoreError::LengthMismatch => "Length provided does not match the body length",
            StoreError::HashMismatch => "Hash provided does not match the hash of the content",
            StoreError::NotADirectory => "Not a directory",
            StoreError::NotEmptyDirectory => "Directory is not empty",
            StoreError::MissingOrInvalidHeader => "Missing or invalid object header",
        }
    }
}

} // verus!
