//! Errors raised by the broker core, split by the stage that raises them:
//! protocol errors while decoding bytes, validation errors before dispatch,
//! and engine errors while applying a command.

use vstd::prelude::*;

verus! {

/// Error kind returned by the broker core.
#[derive(Clone, Copy, Debug, PartialEq, Eq, Structural)]
pub enum IggyError {
    /// The buffer is shorter than the minimum layout of the declared command.
    InvalidCommand,
    /// A fixed-width slice could not be reinterpreted as the expected integer.
    InvalidNumberEncoding,
    /// An identifier field is structurally malformed.
    InvalidIdentifier,
    /// A partition-count field lies outside `[1, MAX_PARTITIONS_COUNT]`.
    TooManyPartitions,
    /// The referenced stream does not exist.
    StreamIdNotFound,
    /// The referenced topic does not exist.
    TopicIdNotFound,
}

impl IggyError {
    /// Stable numeric code of the error kind, for transport framing.
    pub fn as_code(&self) -> (code: u32)
        ensures
            code == self.spec_code(),
    {
        match self {
            IggyError::InvalidCommand => 1,
            IggyError::InvalidNumberEncoding => 2,
            IggyError::InvalidIdentifier => 3,
            IggyError::TooManyPartitions => 4,
            IggyError::StreamIdNotFound => 5,
            IggyError::TopicIdNotFound => 6,
        }
    }

    /// The code each kind maps to; distinct kinds map to distinct codes.
    pub open spec fn spec_code(self) -> u32 {
        match self {
            IggyError::InvalidCommand => 1,
            IggyError::InvalidNumberEncoding => 2,
            IggyError::InvalidIdentifier => 3,
            IggyError::TooManyPartitions => 4,
            IggyError::StreamIdNotFound => 5,
            IggyError::TopicIdNotFound => 6,
        }
    }
}

} // verus!
