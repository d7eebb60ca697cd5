//! The kinds of failure that the crate reports.

use vstd::prelude::*;

verus! {

/// Why an operation failed.
#[derive(Clone, Copy, Debug, PartialEq, Eq, Structural)]
pub enum Error {
    /// A name breaks the rules on its characters or its shape.
    Validation,
    /// A name has more bytes than one field value can carry.
    Capacity,
    /// A field value does not decode to the text that its identifier claims.
    Encoding,
    /// A commitment or encryption primitive failed.
    Crypto,
    /// A byte stream is truncated or malformed.
    Io,
    /// A text form is not the hexadecimal writing of a well-formed byte stream.
    Parse,
    /// Record, signature or key counts disagree with the protocol, or the
    /// kernel is not valid.
    Invariant,
}

} // verus!
