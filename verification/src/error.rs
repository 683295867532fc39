use vstd::prelude::*;

verus! {

/// The closed set of codec failures.
///
/// Decoding never mutates caller state; encoding may leave a partially
/// written destination behind, which the caller must discard on error.
#[derive(Debug, Clone, Copy, PartialEq, Eq, Structural)]
pub enum Error {
    /// A buffer shorter than 12 bytes where a header is required.
    InvalidHeaderLength,
    /// A read or write that would exceed the buffer bounds.
    InsufficientData,
    /// An attempt to encode a reserved name element, or a zero-copy
    /// fixed-capacity container overflow.
    InvalidDomainName,
}

impl Error {
    /// A human-readable description of the failure.
    pub fn message(&self) -> (r: &'static str)
        ensures
            *self == Error::InvalidHeaderLength ==> r@ == "DNS header must be at least 12 bytes"@,
            *self == Error::InsufficientData ==> r@ == "Insufficient data to decode DNS question"@,
            *self == Error::InvalidDomainName ==> r@ == "Invalid domain name format"@,
    {
        match self {
            Error::InvalidHeaderLength => "DNS header must be at least 12 bytes",
            Error::InsufficientData => "Insufficient data to decode DNS question",
            Error::InvalidDomainName => "Invalid domain name format",
        }
    }
}

} // verus!
