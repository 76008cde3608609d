//! Hexadecimal rendering of record hashes for display.

use vstd::prelude::*;
use crate::text::{hex_string, hex_text};

verus! {

/// The 64 lowercase hexadecimal digits of a digest.
pub fn encode(data: [u8; 32]) -> (s: String)
    ensures
        s@ == hex_text(data@),
{
    hex_string(data.as_slice())
}

} // verus!
