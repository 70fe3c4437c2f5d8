//! The ways in which an operation on stamps can fail.

use vstd::prelude::*;

verus! {

/// Why an operation did not produce its result.
#[derive(Clone, Copy, Debug, PartialEq, Eq, Structural)]
pub enum Error {
    /// An argument is outside the supported range: an empty resource, a
    /// difficulty above [`crate::digest::MAX_BITS`], or a salt or counter
    /// with a byte outside the token alphabet.
    InvalidInput,
    /// The bytes are not the wire form of any stamp.
    ParseError,
    /// The stamp is older than the caller's expiry window allows.
    Expired,
    /// The search budget ran out before a counter was found.
    Cancelled,
}

} // verus!
