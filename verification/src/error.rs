//! Error values of the decoders.
use vstd::prelude::*;

verus! {

/// Errors returned by the decoders.
#[derive(Debug)]
pub enum IoError {
    /// The file contents could not be parsed.
    Parse(String),
    /// The file or extension is not supported.
    UnsupportedFormat(String),
}

/// A parse error carrying the message `m`.
pub fn parse_error(m: &str) -> (e: IoError)
    ensures
        e matches IoError::Parse(t) && t@ == m@,
{
    IoError::Parse(m.to_owned())
}

} // verus!
