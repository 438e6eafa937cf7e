//! The error type shared by the readers, parsers and pipeline builders.

use vstd::prelude::*;
use crate::sig::Signature;

verus! {

/// Why an operation was refused.
#[derive(Debug, Clone, Copy)]
pub enum Error {
    /// The data is malformed; the text says which rule it broke.
    Corrupt(&'static str),
    /// A count or offset is outside the range the format allows.
    Range,
    /// A read needed `needed` bytes but only `got` remained.
    Truncated { needed: u32, got: u32 },
    /// A signature field holds an unexpected value.
    BadSignature(Signature),
    /// A valid request this library does not implement.
    Unsupported(&'static str),
}

} // verus!
