//! The decode error taxonomy.

use vstd::prelude::*;

verus! {

/// A terminal decode failure.  Every error aborts the whole decode call;
/// nothing is retried and no partial result is returned.
#[derive(Clone, Copy, Debug, PartialEq, Eq, Structural)]
pub enum Error {
    /// The fixed magic signature at the start of the stream did not match.
    BadSignature,
    /// A bit read required more data than the byte source could supply.
    UnexpectedEof,
}

} // verus!
