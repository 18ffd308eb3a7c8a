//! The CBOR basic data model: integers, strings, arrays, maps, tags, simple values and
//! floats, without any interpretation of tags.
pub mod laws;
pub mod streaming;
pub mod tree;
