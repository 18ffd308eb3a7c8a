use vstd::prelude::*;

verus! {

/// Errors that can occur when decoding CBOR.
#[derive(Debug, Clone, PartialEq, Eq)]
#[non_exhaustive]
pub enum DecodeError {
    /// The input breaks the CBOR grammar (reserved codes, a misplaced break, ...).
    Malformed,
    /// More data follows a complete item where none was expected.
    Excess,
    /// The input ended in the middle of an item.
    Insufficient,
    /// A text string held these bytes, which are not UTF-8.
    InvalidUtf8(Vec<u8>),
    /// An item tagged with this tag did not have the shape that the tag demands.
    TagInvalid(u64),
    /// A tag-0 date/time string was not valid RFC 3339.
    InvalidDateTime,
    /// A bignum was too large to convert to a basic integer.
    OversizedBignum,
}

/// Errors that can occur when encoding CBOR.
#[derive(Debug, Clone, PartialEq, Eq)]
#[non_exhaustive]
pub enum EncodeError {
    /// More data was fed after a complete item where none was expected.
    Excess,
    /// Encoding ended in the middle of an item.
    Insufficient,
    /// A break was fed where no indefinite-length item can end.
    InvalidBreak,
}

} // verus!
