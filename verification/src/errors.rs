use vstd::prelude::*;

verus! {

/// Why a received message could not be decoded.
#[derive(Clone, Copy, Debug, PartialEq, Eq, Structural)]
pub enum DecodeError {
    /// The buffer ended before a fixed-size field could be read.
    TooShort,
    /// A label or compression pointer in a domain name points outside the
    /// buffer, or a pointer chain exceeds the hop bound.
    MalformedName,
}

/// Why a message could not be encoded.
#[derive(Clone, Copy, Debug, PartialEq, Eq, Structural)]
pub enum EncodeError {
    /// A domain name violates the length invariants: a label outside
    /// 1..=63 bytes, or a total encoded length above 255 bytes.
    NameTooLong,
}

} // verus!
