//! Sizes from which on a device is used.
//!
//! Below these sizes the cost of a launch outweighs what the device gains over the
//! processor.

use vstd::prelude::*;

verus! {

/// Least log size of transforms on the device.
pub const MIN_FFT_LOG_SIZE: u32 = 12;

/// Least log size of folds on the device.
pub const MIN_FRI_LOG_SIZE: u32 = 10;

/// Least log size of Merkle layers on the device.
pub const MIN_MERKLE_LOG_SIZE: u32 = 10;

/// Least log size of quotient accumulation on the device.
pub const MIN_QUOTIENT_LOG_SIZE: u32 = 10;

/// Least log size of multilinear extension folds on the device.
pub const MIN_MLE_LOG_SIZE: u32 = 10;

} // verus!
