//! Four-byte ICC signatures.

use vstd::prelude::*;

verus! {

/// A big-endian four-character code (tag, type, class or space signature).
#[derive(Clone, Copy, Debug, PartialEq, Eq, Structural)]
pub struct Signature(pub u32);

impl Signature {
    pub fn from_raw(v: u32) -> (s: Signature)
        ensures
            s.0 == v,
    {
        Signature(v)
    }

    pub fn to_raw(self) -> (v: u32)
        ensures
            v == self.0,
    {
        self.0
    }

    /// The signature whose big-endian bytes are `b`.
    pub fn from_bytes(b: [u8; 4]) -> (s: Signature)
        ensures
            s.0 == be32(b[0], b[1], b[2], b[3]),
    {
        Signature(((b[0] as u32) << 24u32) | ((b[1] as u32) << 16u32) | ((b[2] as u32) << 8u32) | (b[3] as u32))
    }
}

/// The big-endian 32-bit value of four bytes.
pub open spec fn be32(b0: u8, b1: u8, b2: u8, b3: u8) -> u32 {
    ((b0 as u32) << 24u32) | ((b1 as u32) << 16u32) | ((b2 as u32) << 8u32) | (b3 as u32)
}

} // verus!
