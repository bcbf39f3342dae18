//! Failures that the library reports.

use vstd::prelude::*;

verus! {

/// What can go wrong inside the pipeline other than the I/O itself.
#[derive(Debug, Clone, Copy, PartialEq, Eq, Structural)]
pub enum Error {
    /// A buffer slot was asked for that is not available.
    ExhaustedPool,
    /// A block could not be compressed.
    EncodeError,
    /// A position arrived twice, fell behind the next expected one, or was
    /// still pending when the stream ended.
    OrderingViolation,
    /// A chunk was asked to be written to a stream of the other kind:
    /// unframed chunks and framed ones never share an output.
    MixedModes,
}

impl Error {
    /// A short description for people.
    pub fn message(&self) -> (text: &'static str)
        ensures
            text@ == match *self {
                Error::ExhaustedPool => "buffer slot is not available"@,
                Error::EncodeError => "block could not be compressed"@,
                Error::OrderingViolation => "block positions are inconsistent"@,
                Error::MixedModes => "dd mode is not possible"@,
            },
    {
        match self {
            Error::ExhaustedPool => "buffer slot is not available",
            Error::EncodeError => "block could not be compressed",
            Error::OrderingViolation => "block positions are inconsistent",
            Error::MixedModes => "dd mode is not possible",
        }
    }
}

} // verus!
