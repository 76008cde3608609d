//! Hexadecimal rendering of message keys.

use vstd::prelude::*;
use crate::text::{hex_string, hex_text};

verus! {

/// `data` as lowercase hexadecimal, two digits per byte.
pub fn encode(data: &[u8]) -> (s: String)
    ensures
        s@ == hex_text(data@),
{
    hex_string(data)
}

} // verus!
