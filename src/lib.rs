//! CBOR (RFC 8949) encoding and decoding.
//!
//! - [`basic::streaming`]: an event-level encoder/decoder pair that tracks container
//!   structure with a stack of pending expectations.
//! - [`basic::tree`]: builds and walks whole [`basic::tree::Item`] values on top of it.
//! - [`extended`]: the same, with date-times (tags 0 and 1) and bignums (tags 2 and 3)
//!   folded into higher-level events.
pub mod basic;
pub mod errors;
pub mod extended;
pub mod read_ints;
