use vstd::prelude::*;

verus! {

/// Error categories reported by the library.
#[derive(Debug, Clone, Copy, PartialEq, Eq)]
pub enum ErrorCode {
    Undefined,
    File,
    Range,
    Internal,
    Null,
    Read,
    Seek,
    Write,
    UnknownExtension,
    ColorspaceCheck,
    AlreadyDefined,
    BadSignature,
    CorruptionDetected,
    NotSuitable,
}

/// The numeric value of an error code, as used by the ICC tooling.
pub open spec fn error_code_value(c: ErrorCode) -> u32 {
    match c {
        ErrorCode::Undefined => 0,
        ErrorCode::File => 1,
        ErrorCode::Range => 2,
        ErrorCode::Internal => 3,
        ErrorCode::Null => 4,
        ErrorCode::Read => 5,
        ErrorCode::Seek => 6,
        ErrorCode::Write => 7,
        ErrorCode::UnknownExtension => 8,
        ErrorCode::ColorspaceCheck => 9,
        ErrorCode::AlreadyDefined => 10,
        ErrorCode::BadSignature => 11,
        ErrorCode::CorruptionDetected => 12,
        ErrorCode::NotSuitable => 13,
    }
}

impl ErrorCode {
    /// Numeric value of the code.
    pub fn value(self) -> (r: u32)
        ensures
            r == error_code_value(self),
    {
        match self {
            ErrorCode::Undefined => 0,
            ErrorCode::File => 1,
            ErrorCode::Range => 2,
            ErrorCode::Internal => 3,
            ErrorCode::Null => 4,
            ErrorCode::Read => 5,
            ErrorCode::Seek => 6,
            ErrorCode::Write => 7,
            ErrorCode::UnknownExtension => 8,
            ErrorCode::ColorspaceCheck => 9,
            ErrorCode::AlreadyDefined => 10,
            ErrorCode::BadSignature => 11,
            ErrorCode::CorruptionDetected => 12,
            ErrorCode::NotSuitable => 13,
        }
    }
}

/// An error with its category and a human-readable message.
#[derive(Debug)]
pub struct CmsError {
    pub code: ErrorCode,
    pub message: String,
}

} // verus!
