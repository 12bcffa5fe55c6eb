//! The sole entity of the library: one price observation.

use vstd::prelude::*;

verus! {

/// One observation: seconds since the Unix epoch, and the close price scaled
/// by 1000 (three implied decimal digits, truncated beyond the third).
#[derive(Debug, Clone, Copy, PartialEq, Eq, Structural)]
pub struct SolanaPriceEntry {
    pub time: u32,
    pub close_price: u32,
}

} // verus!
