//! Collection wire codec: turns homogeneous or polymorphic collections of
//! elements into a compact, self-describing byte stream and back.
//!
//! A collection travels as a length prefix, an optional header byte with
//! per-collection flags (null presence, declared element type, element-type
//! homogeneity), an optional element-type descriptor, and the elements
//! themselves, written either as raw values or wrapped in a small
//! null/value envelope.

pub mod collection;
pub mod cursor;
pub mod error;
pub mod value;
