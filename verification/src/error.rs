use vstd::prelude::*;

verus! {

/// Why an encode or decode call failed.
///
/// Every error aborts the whole collection operation; a partially decoded
/// collection is never handed back.
#[derive(Clone, Copy, Debug, PartialEq, Eq, Structural)]
pub enum Error {
    /// The cursor would have to read past the available bytes.
    Truncated,
    /// A length or identifier varint does not fit in 32 bits.
    BadVarint,
    /// A decoded collection or element type identifier disagrees with the
    /// statically expected one.
    TypeMismatch,
    /// A primitive-array identifier was decoded where a generic-collection
    /// identifier was expected, or the other way round; the two families are
    /// not bit-compatible and are never coerced.
    CrossFamily,
    /// An element's null/value marker byte is not a known marker.
    BadEnvelope,
}

} // verus!
