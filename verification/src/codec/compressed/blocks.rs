//! Events grouped into square tiles of pixels.

use vstd::prelude::*;

pub mod block;
pub mod quantizer;

verus! {

/// Side length of a block, in pixels.
pub const BLOCK_SIZE: usize = 16;

/// Number of pixels in a block.
pub const BLOCK_SIZE_AREA: usize = 256;

/// Difference between two decimation values.
pub type DResidual = i16;

/// Difference between a time delta and its prediction.
pub type DeltaTResidual = i64;

/// The D-residual that marks a pixel without an event. It lies just outside
/// the range of a difference between two decimation values.
pub const D_ENCODE_NO_EVENT: DResidual = 256;

/// How far an event departs from what the event before it predicts.
#[derive(Debug, Clone, Copy, PartialEq, Eq)]
pub struct EventResidual {
    pub d: DResidual,
    pub delta_t: DeltaTResidual,
}

} // verus!
