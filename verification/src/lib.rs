//! Core types of the ADΔER event representation, and the compressed codec
//! that packs events into independently decodable units.

use vstd::prelude::*;
use vstd::std_specs::convert::FromSpecImpl;

pub mod codec;

verus! {

/// Decimation value; a pixel's sensitivity.
pub type D = u8;

/// Number of ticks elapsed since a given pixel last fired an [`Event`].
pub type DeltaT = u32;

/// Ticks since the start of the recording.
pub type AbsoluteT = u32;

/// Large count of ticks, for the running timestamp of a sequence of events.
pub type BigT = u64;

/// Pixel x- or y- coordinate address.
pub type PixelAddress = u16;

/// The maximum possible [`D`] value.
pub const D_MAX: D = 127;

/// Special symbol signifying no information (filler dt).
pub const D_EMPTY: D = 255;

/// Special symbol signifying that nothing was integrated.
pub const D_ZERO_INTEGRATION: D = 254;

/// The default [`D`] value for every pixel at the beginning of transcode.
pub const D_START: D = 7;

/// Special pixel address signifying the end of a sequence of events.
pub const EOF_PX_ADDRESS: PixelAddress = 0xffff;

/// Error type for the [`PlaneSize`] struct.
#[derive(Debug, Clone, Copy, PartialEq, Eq)]
pub enum PlaneError {
    /// Some dimension is zero. All must be positive.
    InvalidPlane { width: u16, height: u16, channels: u8 },
}

/// The kind of camera that a stream of events came from.
#[derive(Debug, Clone, Copy, Default, PartialEq, Eq)]
pub enum SourceCamera {
    #[default]
    FramedU8,
    FramedU16,
    FramedU32,
    FramedU64,
    FramedF32,
    FramedF64,
    Dvs,
    DavisU8,
    Atis,
    Asint,
}

impl SourceCamera {
    /// The text that describes this camera.
    pub open spec fn spec_description(self) -> Seq<char> {
        match self {
            SourceCamera::FramedU8 => "FramedU8 - Framed video with 8-bit pixel depth, unsigned integer"@,
            SourceCamera::FramedU16 => "FramedU16 - Framed video with 16-bit pixel depth, unsigned integer"@,
            SourceCamera::FramedU32 => "FramedU32 - Framed video with 32-bit pixel depth, unsigned integer"@,
            SourceCamera::FramedU64 => "FramedU64 - Framed video with 64-bit pixel depth, unsigned integer"@,
            SourceCamera::FramedF32 => "FramedF32 - Framed video with 32-bit pixel depth, floating point"@,
            SourceCamera::FramedF64 => "FramedU8 - Framed camera with 64-bit pixel depth, floating point"@,
            SourceCamera::Dvs => "Dvs - Dynamic Vision System camera"@,
            SourceCamera::DavisU8 => "DavisU8 - Dynamic and Active Vision System camera. Active frames with 8-bit pixel depth, unsigned integer "@,
            SourceCamera::Atis => "Atis - Asynchronous Time-Based Image Sensor camera"@,
            SourceCamera::Asint => "Asint - Asynchronous Integration camera"@,
        }
    }

    /// The camera's name followed by what it is, as one line of text.
    pub fn description(&self) -> (text: String)
        ensures
            text@ == self.spec_description(),
    {
        let text = match self {
            SourceCamera::FramedU8 => "FramedU8 - Framed video with 8-bit pixel depth, unsigned integer",
            SourceCamera::FramedU16 => "FramedU16 - Framed video with 16-bit pixel depth, unsigned integer",
            SourceCamera::FramedU32 => "FramedU32 - Framed video with 32-bit pixel depth, unsigned integer",
            SourceCamera::FramedU64 => "FramedU64 - Framed video with 64-bit pixel depth, unsigned integer",
            SourceCamera::FramedF32 => "FramedF32 - Framed video with 32-bit pixel depth, floating point",
            SourceCamera::FramedF64 => "FramedU8 - Framed camera with 64-bit pixel depth, floating point",
            SourceCamera::Dvs => "Dvs - Dynamic Vision System camera",
            SourceCamera::DavisU8 => "DavisU8 - Dynamic and Active Vision System camera. Active frames with 8-bit pixel depth, unsigned integer ",
            SourceCamera::Atis => "Atis - Asynchronous Time-Based Image Sensor camera",
            SourceCamera::Asint => "Asint - Asynchronous Integration camera",
        };
        text.to_owned()
    }
}

/// The type of time used in the ADΔER representation.
#[derive(Debug, Clone, Copy, Default, PartialEq, Eq)]
pub enum TimeMode {
    /// The time is the delta time from the previous event.
    DeltaT,
    /// The time is the absolute time from the start of the recording.
    #[default]
    AbsoluteT,
    /// Both kinds of time occur.
    Mixed,
}

/// How a transcoder paces the events it emits.
#[derive(Debug, Clone, Copy, PartialEq, Eq)]
pub enum Mode {
    FramePerfect,
    Continuous,
}

/// The type of data source representation.
#[derive(Debug, Clone, Copy, PartialEq, Eq)]
pub enum SourceType {
    U8,
    U16,
    U32,
    U64,
    F32,
    F64,
}

/// The size of the image plane in pixels. Every dimension is positive.
#[derive(Debug, Clone, Copy, PartialEq, Eq)]
pub struct PlaneSize {
    width: u16,
    height: u16,
    channels: u8,
}

impl Default for PlaneSize {
    fn default() -> (plane: Self)
        ensures
            plane.spec_w() == 1,
            plane.spec_h() == 1,
            plane.spec_c() == 1,
    {
        PlaneSize { width: 1, height: 1, channels: 1 }
    }
}

impl PlaneSize {
    #[verifier::type_invariant]
    spec fn positive(self) -> bool {
        self.width > 0 && self.height > 0 && self.channels > 0
    }

    /// The width in pixels.
    pub closed spec fn spec_w(&self) -> u16 {
        self.width
    }

    /// The height in pixels.
    pub closed spec fn spec_h(&self) -> u16 {
        self.height
    }

    /// The number of channels.
    pub closed spec fn spec_c(&self) -> u8 {
        self.channels
    }

    /// Create a new `PlaneSize` with the given width, height, and channels.
    /// A plane with a dimension of zero is refused.
    pub fn new(width: u16, height: u16, channels: u8) -> (result: Result<Self, PlaneError>)
        ensures
            match result {
                Ok(plane) => {
                    &&& width > 0 && height > 0 && channels > 0
                    &&& plane.spec_w() == width
                    &&& plane.spec_h() == height
                    &&& plane.spec_c() == channels
                },
                Err(e) => {
                    &&& width == 0 || height == 0 || channels == 0
                    &&& e == (PlaneError::InvalidPlane { width, height, channels })
                },
            },
    {
        if width == 0 || height == 0 || channels == 0 {
            return Err(PlaneError::InvalidPlane { width, height, channels });
        }
        Ok(Self { width, height, channels })
    }

    /// The width, shorthand for `self.width`.
    #[verifier::when_used_as_spec(spec_w)]
    pub fn w(&self) -> (r: u16)
        ensures
            r == self.spec_w(),
            r > 0,
    {
        proof {
            use_type_invariant(self);
        }
        self.width
    }

    /// The width as a `usize`.
    pub fn w_usize(&self) -> (r: usize)
        ensures
            r == self.spec_w(),
            r > 0,
    {
        proof {
            use_type_invariant(self);
        }
        self.width as usize
    }

    /// The height, shorthand for `self.height`.
    #[verifier::when_used_as_spec(spec_h)]
    pub fn h(&self) -> (r: u16)
        ensures
            r == self.spec_h(),
            r > 0,
    {
        proof {
            use_type_invariant(self);
        }
        self.height
    }

    /// The height as a `usize`.
    pub fn h_usize(&self) -> (r: usize)
        ensures
            r == self.spec_h(),
            r > 0,
    {
        proof {
            use_type_invariant(self);
        }
        self.height as usize
    }

    /// The number of channels, shorthand for `self.channels`.
    #[verifier::when_used_as_spec(spec_c)]
    pub fn c(&self) -> (r: u8)
        ensures
            r == self.spec_c(),
            r > 0,
    {
        proof {
            use_type_invariant(self);
        }
        self.channels
    }

    /// The number of channels as a `usize`.
    pub fn c_usize(&self) -> (r: usize)
        ensures
            r == self.spec_c(),
            r > 0,
    {
        proof {
            use_type_invariant(self);
        }
        self.channels as usize
    }

    /// The total number of 2D pixels in the image plane, across the height and width dimension.
    pub fn area_wh(&self) -> (r: usize)
        ensures
            r == self.spec_w() * self.spec_h(),
    {
        assert(self.width * self.height <= 0xffff * 0xffff) by (nonlinear_arith);
        self.width as usize * self.height as usize
    }

    /// The total number of 2D pixels in the image plane, across the width and channel dimension.
    pub fn area_wc(&self) -> (r: usize)
        ensures
            r == self.spec_w() * self.spec_c(),
    {
        assert(self.width * self.channels <= 0xffff * 0xff) by (nonlinear_arith);
        self.width as usize * self.channels as usize
    }

    /// The total number of 2D pixels in the image plane, across the height and channel dimension.
    pub fn area_hc(&self) -> (r: usize)
        ensures
            r == self.spec_h() * self.spec_c(),
    {
        assert(self.height * self.channels <= 0xffff * 0xff) by (nonlinear_arith);
        self.height as usize * self.channels as usize
    }

    /// The total number of 3D pixels in the image plane (2D pixels * color depth).
    pub fn volume(&self) -> (r: usize)
        requires
            self.spec_w() * self.spec_h() * self.spec_c() <= usize::MAX,
        ensures
            r == self.spec_w() * self.spec_h() * self.spec_c(),
    {
        self.area_wh() * self.channels as usize
    }
}

/// Pixel channel address in the ADΔER model.
#[derive(Debug, Copy, Clone, PartialEq, Eq, Hash)]
pub struct Coord {
    /// Pixel x-coordinate
    pub x: PixelAddress,
    /// Pixel y-coordinate
    pub y: PixelAddress,
    /// Pixel channel, if present
    pub c: Option<u8>,
}

impl Default for Coord {
    fn default() -> (coord: Self)
        ensures
            coord == (Coord { x: 0, y: 0, c: Some(0u8) }),
    {
        Self { x: 0, y: 0, c: Some(0) }
    }
}

impl Coord {
    /// Creates a new coordinate with the given x, y, and channel.
    pub fn new(x: PixelAddress, y: PixelAddress, c: Option<u8>) -> (coord: Self)
        ensures
            coord == (Coord { x, y, c }),
    {
        Self { x, y, c }
    }

    /// Creates a new 2D coordinate.
    pub fn new_2d(x: PixelAddress, y: PixelAddress) -> (coord: Self)
        ensures
            coord == (Coord { x, y, c: None }),
    {
        Self { x, y, c: None }
    }

    /// Creates a new 3D coordinate with the given channel.
    pub fn new_3d(x: PixelAddress, y: PixelAddress, c: u8) -> (coord: Self)
        ensures
            coord == (Coord { x, y, c: Some(c) }),
    {
        Self { x, y, c: Some(c) }
    }

    /// Returns the x coordinate as a [`PixelAddress`].
    pub fn x(&self) -> (r: PixelAddress)
        ensures
            r == self.x,
    {
        self.x
    }

    /// Returns the y coordinate as a [`PixelAddress`].
    pub fn y(&self) -> (r: PixelAddress)
        ensures
            r == self.y,
    {
        self.y
    }

    /// Returns the channel as an `Option<u8>`.
    pub fn c(&self) -> (r: Option<u8>)
        ensures
            r == self.c,
    {
        self.c
    }

    /// Returns the x coordinate as a `usize`.
    pub fn x_usize(&self) -> (r: usize)
        ensures
            r == self.x,
    {
        self.x as usize
    }

    /// Returns the y coordinate as a `usize`.
    pub fn y_usize(&self) -> (r: usize)
        ensures
            r == self.y,
    {
        self.y as usize
    }

    /// The channel that the coordinate lies in; a 2D coordinate lies in channel 0.
    pub open spec fn channel(self) -> int {
        match self.c {
            Some(c) => c as int,
            None => 0,
        }
    }

    /// Returns the channel as a usize, or 0 if the coordinate is 2D.
    pub fn c_usize(&self) -> (r: usize)
        ensures
            r == self.channel(),
    {
        match self.c {
            Some(c) => c as usize,
            None => 0,
        }
    }

    /// Returns true if the coordinate is 2D.
    pub fn is_2d(&self) -> (r: bool)
        ensures
            r == (self.c is None),
    {
        self.c.is_none()
    }

    /// Returns true if the coordinate is 3D.
    pub fn is_3d(&self) -> (r: bool)
        ensures
            r == (self.c is Some),
    {
        self.c.is_some()
    }

    /// Returns true if neither address is the end-of-sequence address.
    pub fn is_valid(&self) -> (r: bool)
        ensures
            r == (self.x != EOF_PX_ADDRESS && self.y != EOF_PX_ADDRESS),
    {
        self.x != EOF_PX_ADDRESS && self.y != EOF_PX_ADDRESS
    }

    /// Returns true if the coordinate is the EOF coordinate.
    pub fn is_eof(&self) -> (r: bool)
        ensures
            r == (self.x == EOF_PX_ADDRESS && self.y == EOF_PX_ADDRESS),
    {
        self.x == EOF_PX_ADDRESS && self.y == EOF_PX_ADDRESS
    }
}

/// A 2D coordinate representation.
#[derive(Debug, Copy, Clone, PartialEq, Eq, Default)]
pub struct CoordSingle {
    pub x: PixelAddress,
    pub y: PixelAddress,
}

/// An ADΔER event representation.
#[derive(Debug, Copy, Clone, PartialEq, Eq, Default, Hash)]
pub struct Event {
    pub coord: Coord,
    pub d: D,
    pub delta_t: DeltaT,
}

/// An ADΔER event representation, without the channel component.
#[derive(Debug, Copy, Clone, PartialEq, Eq, Default)]
pub struct EventSingle {
    pub coord: CoordSingle,
    pub d: D,
    pub delta_t: DeltaT,
}

impl From<&Event> for EventSingle {
    fn from(event: &Event) -> (single: Self) {
        EventSingle {
            coord: CoordSingle { x: event.coord.x, y: event.coord.y },
            d: event.d,
            delta_t: event.delta_t,
        }
    }
}

impl FromSpecImpl<&Event> for EventSingle {
    open spec fn obeys_from_spec() -> bool {
        true
    }

    open spec fn from_spec(event: &Event) -> Self {
        EventSingle {
            coord: CoordSingle { x: event.coord.x, y: event.coord.y },
            d: event.d,
            delta_t: event.delta_t,
        }
    }
}

impl From<EventSingle> for Event {
    fn from(event: EventSingle) -> (full: Self) {
        Event {
            coord: Coord { x: event.coord.x, y: event.coord.y, c: None },
            d: event.d,
            delta_t: event.delta_t,
        }
    }
}

impl FromSpecImpl<EventSingle> for Event {
    open spec fn obeys_from_spec() -> bool {
        true
    }

    open spec fn from_spec(event: EventSingle) -> Self {
        Event {
            coord: Coord { x: event.coord.x, y: event.coord.y, c: None },
            d: event.d,
            delta_t: event.delta_t,
        }
    }
}

/// The event with which a sequence of events ends.
pub fn eof_event() -> (event: Event)
    ensures
        event == (Event {
            coord: Coord { x: EOF_PX_ADDRESS, y: EOF_PX_ADDRESS, c: Some(0u8) },
            d: 0,
            delta_t: 0,
        }),
{
    Event { coord: Coord { x: EOF_PX_ADDRESS, y: EOF_PX_ADDRESS, c: Some(0) }, d: 0, delta_t: 0 }
}

/// The frame at which a pixel's next transition falls.
#[derive(Debug, Copy, Clone, PartialEq, Eq)]
pub struct Transition {
    pub frame_idx: u32,
}

/// An event without its coordinate: inside a block the place in the array
/// says where the event lies.
#[derive(Debug, Copy, Clone, Default, PartialEq, Eq)]
pub struct EventCoordless {
    pub d: D,
    pub delta_t: DeltaT,
}

impl EventCoordless {
    /// The event's time, where the stream carries absolute time.
    pub fn t(&self) -> (r: AbsoluteT)
        ensures
            r == self.delta_t,
    {
        self.delta_t
    }

    /// The event that carries nothing.
    pub fn zero() -> (event: Self)
        ensures
            event == (EventCoordless { d: 0, delta_t: 0 }),
    {
        EventCoordless { d: 0, delta_t: 0 }
    }

    /// Whether both fields are zero.
    pub fn is_zero(&self) -> (r: bool)
        ensures
            r == (self.d == 0 && self.delta_t == 0),
    {
        self.d == 0 && self.delta_t == 0
    }
}

impl From<Event> for EventCoordless {
    fn from(event: Event) -> (stripped: Self) {
        Self { d: event.d, delta_t: event.delta_t }
    }
}

impl FromSpecImpl<Event> for EventCoordless {
    open spec fn obeys_from_spec() -> bool {
        true
    }

    open spec fn from_spec(event: Event) -> Self {
        EventCoordless { d: event.d, delta_t: event.delta_t }
    }
}

} // verus!
