use vstd::prelude::*;

verus! {

/// Everything that can go wrong while parsing or decompressing an archive.
/// All errors are fatal to the current operation; there is no recovery.
#[derive(Clone, Copy, Debug, PartialEq, Eq, Structural)]
pub enum QtmError {
    /// The buffer is shorter than the 8-byte archive header.
    TooSmall,
    /// The first two bytes are not the Quantum signature.
    InvalidSignature,
    /// The window exponent is outside the legal range.
    InvalidTableSize,
    /// The archive ended in the middle of a header field or a string.
    Truncated,
    /// A decoded position slot was out of range for the position tables.
    InvalidPositionSlot,
    /// A decoded length slot was out of range for the length tables.
    InvalidLengthSlot,
    /// The top-level selector model produced a value outside 0..=6.
    InvalidSelector,
    /// The arithmetic decoder met a zero total frequency or a zero range.
    ZeroFrequencyOrRange,
}

impl QtmError {
    /// A short human-readable description of the error.
    pub fn message(&self) -> (m: &'static str)
        ensures
            *self is TooSmall ==> m@ == "file too small for a Quantum archive"@,
            *self is InvalidSignature ==> m@ == "invalid signature"@,
            *self is InvalidTableSize ==> m@ == "invalid table size"@,
            *self is Truncated ==> m@ == "unexpected end of archive"@,
            *self is InvalidPositionSlot ==> m@ == "invalid position slot"@,
            *self is InvalidLengthSlot ==> m@ == "invalid length slot"@,
            *self is InvalidSelector ==> m@ == "invalid selector"@,
            *self is ZeroFrequencyOrRange ==> m@ == "zero frequency or range"@,
    {
        match self {
            QtmError::TooSmall => "file too small for a Quantum archive",
            QtmError::InvalidSignature => "invalid signature",
            QtmError::InvalidTableSize => "invalid table size",
            QtmError::Truncated => "unexpected end of archive",
            QtmError::InvalidPositionSlot => "invalid position slot",
            QtmError::InvalidLengthSlot => "invalid length slot",
            QtmError::InvalidSelector => "invalid selector",
            QtmError::ZeroFrequencyOrRange => "zero frequency or range",
        }
    }
}

} // verus!
