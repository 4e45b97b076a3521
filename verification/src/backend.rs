//! The backend itself.

use crate::utils;
use crate::utils::bit_reverse;
use vstd::prelude::*;

verus! {

/// A backend that hands large work to a GPU and keeps small work on the processor.
#[derive(Debug, Clone, Copy, PartialEq, Eq, Structural)]
pub struct MetalBackend;

impl MetalBackend {
    /// Whether a device can be used on this platform: there is none without Metal.
    pub fn is_available() -> (r: bool)
        ensures
            !r,
    {
        false
    }

    /// Permutes a column of base or extension field elements into bit-reversed order.
    pub fn bit_reverse_column<F: Copy>(column: &mut Vec<F>)
        requires
            utils::is_pow2(old(column).len() as int),
        ensures
            final(column)@ == utils::bit_reverse_seq(
                old(column)@,
                utils::floor_log2(old(column).len() as int),
            ),
    {
        bit_reverse(column);
    }
}

} // verus!
