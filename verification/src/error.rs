//! The codec's failure taxonomy.

use vstd::prelude::*;

verus! {

/// Why a decode or encode call gave no table or no bytes.
///
/// Malformed data never panics the codec: every failure path surfaces as
/// one of these.
#[derive(Clone, PartialEq, Eq, Debug)]
pub enum TableError {
    /// The input is not a readable zip container.
    MalformedContainer,
    /// A required member of the container (the worksheet, or the content
    /// stream) is absent.
    MissingPart,
    /// The XML of a member could not be read; carries the reader's message.
    MalformedXml(String),
    /// A stream that must be UTF-8 text is not.
    Encoding,
    /// The requested format is not one the codec reads.
    UnsupportedFormat,
    /// A writer failed to build the requested container; carries the name
    /// of the target format.
    EncodeFailure(String),
}

impl TableError {
    /// A short human-readable label for the failure.
    pub fn label(&self) -> (r: &'static str)
        ensures
            r@ == match self {
                TableError::MalformedContainer => "malformed container"@,
                TableError::MissingPart => "missing part"@,
                TableError::MalformedXml(_) => "malformed xml"@,
                TableError::Encoding => "invalid encoding"@,
                TableError::UnsupportedFormat => "unsupported format"@,
                TableError::EncodeFailure(_) => "encode failure"@,
            },
    {
        match self {
            TableError::MalformedContainer => "malformed container",
            TableError::MissingPart => "missing part",
            TableError::MalformedXml(_) => "malformed xml",
            TableError::Encoding => "invalid encoding",
            TableError::UnsupportedFormat => "unsupported format",
            TableError::EncodeFailure(_) => "encode failure",
        }
    }
}

} // verus!
