//! The UART link to the relay's remote side.
use crate::words::words_to_bytes;
use vstd::prelude::*;

verus! {

/// The bytes to write to the UART for `data`: its words, little-endian.
pub fn send32(data: &[u32]) -> (bytes: Vec<u8>)
    ensures
        bytes@ == crate::words::words_bytes(data@),
{
    words_to_bytes(data)
}

} // verus!
