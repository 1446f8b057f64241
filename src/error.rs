//! The failures the engine reports.
use vstd::prelude::*;

verus! {

/// What went wrong.
#[derive(Debug)]
pub enum LsmError {
    /// An operating-system level file error.
    Io(String),
    /// Malformed serialized metadata.
    Serialization(String),
    /// A stored checksum does not match the checksum of the bytes read.
    ChecksumMismatch { expected: u32, actual: u32 },
    /// An exact lookup found nothing.
    KeyNotFound,
    /// A structural invariant of an encoded layout does not hold.
    Format(String),
}

/// The result of an engine operation.
pub type Result<T> = std::result::Result<T, LsmError>;

/// A format error with the given message.
pub fn format_error(msg: &str) -> (r: LsmError)
    ensures
        r is Format,
{
    LsmError::Format(msg.to_owned())
}

} // verus!
