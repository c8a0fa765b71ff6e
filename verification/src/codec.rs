//! Encoding and decoding of event streams.

use vstd::prelude::*;
use crate::{DeltaT, PlaneSize, SourceCamera, TimeMode};

pub mod compressed;

verus! {

/// What can go wrong while an access decodable unit is written or read.
/// None of these can be recovered from within the unit.
#[derive(Debug, Clone, Copy, PartialEq, Eq, Structural)]
pub enum CodecError {
    /// A value handed to the encoder lies outside what the format can carry.
    InvalidInput,
    /// The decoded symbols do not form what the format describes.
    CorruptStream,
    /// The coded stream holds no bytes at all.
    UnexpectedEof,
    /// The end-of-stream symbol came before the unit was complete.
    PrematureEof,
    /// The sink refused bits.
    WriteFailure,
    /// The source could not be read.
    ReadFailure,
}

/// The options that a stream is opened with.
#[derive(Debug, Clone, Copy, Default)]
pub struct CodecMetadata {
    pub codec_version: u8,
    pub header_size: usize,
    /// How the time field of an event is to be read.
    pub time_mode: TimeMode,
    /// The size of the image plane; a frame sizes its grid of cubes by it.
    pub plane: PlaneSize,
    /// Ticks per second.
    pub tps: DeltaT,
    /// Reference tick interval.
    pub ref_interval: DeltaT,
    /// Upper bound on the time delta of an event; it sizes the alphabet of
    /// the time residuals.
    pub delta_t_max: DeltaT,
    pub event_size: u8,
    pub source_camera: SourceCamera,
}

} // verus!
