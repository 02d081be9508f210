//! The failures that the library reports to its callers.

use vstd::prelude::*;

verus! {

/// Why an operation of the library failed.
#[derive(Clone, Copy, Debug, PartialEq, Eq, Structural)]
pub enum PPRFError {
    /// The puncturable function no longer covers the tag: it was punctured.
    NoPrefixFound,
    /// The server never had a public key for this tag.
    BadTag { md: u8 },
    /// An encoded point is malformed or does not hold exactly 32 bytes.
    SerializationError,
}

} // verus!
