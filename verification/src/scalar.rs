//! A 256-bit scalar in little-endian byte form, the input of the scalar
//! multiplication protocol.
use vstd::prelude::*;

use crate::radix::bytes_val;

verus! {

/// A scalar of the embedded curve's group, as its canonical 32-byte
/// little-endian encoding.
#[derive(Clone, Copy, Debug)]
pub struct Scalar {
    pub bytes: [u8; 32],
}

impl View for Scalar {
    type V = nat;

    open spec fn view(&self) -> nat {
        bytes_val(self.bytes@)
    }
}

impl Scalar {
    /// A scalar from its canonical little-endian encoding.
    pub fn from_le_bytes(bytes: [u8; 32]) -> (r: Scalar)
        ensures
            r.bytes == bytes,
            r@ == bytes_val(bytes@),
    {
        Scalar { bytes }
    }
}

} // verus!
