//! The error kinds surfaced by the store.

use vstd::prelude::*;

verus! {

/// An error returned by a store operation.
#[derive(Debug, Clone, PartialEq, Eq, Structural)]
pub enum KvsError {
    /// A filesystem or I/O failure, reported by an unverified caller that
    /// drives the engine against a real directory.
    Io,
    /// A record failed to decode, either during recovery or on an online read.
    Serde,
    /// `remove` was called for a key that is not present.
    KeyNotFound,
    /// The index pointed at a record that is not a `Set`; the on-disk data is
    /// corrupt.
    UnexpectedCommandType,
}

impl KvsError {
    /// A human-readable description; the engine itself only classifies.
    pub fn message(&self) -> (r: &'static str)
        ensures
            r@ == self.spec_message(),
    {
        match self {
            KvsError::Io => "I/O error",
            KvsError::Serde => "serialization or deserialization error",
            KvsError::KeyNotFound => "Key not found",
            KvsError::UnexpectedCommandType => "unexpected command type",
        }
    }

    /// What `message` returns for each kind.
    pub open spec fn spec_message(self) -> Seq<char> {
        match self {
            KvsError::Io => "I/O error"@,
            KvsError::Serde => "serialization or deserialization error"@,
            KvsError::KeyNotFound => "Key not found"@,
            KvsError::UnexpectedCommandType => "unexpected command type"@,
        }
    }
}

} // verus!
