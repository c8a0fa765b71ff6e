use adder_codec_core::{
    eof_event, Coord, CoordSingle, Event, EventCoordless, EventSingle, PlaneError, PlaneSize,
    SourceCamera, TimeMode, Transition, D_EMPTY, D_MAX, D_START, D_ZERO_INTEGRATION,
    EOF_PX_ADDRESS,
};

#[test]
fn encode_raw() {}

#[test]
fn plane_size_needs_positive_dimensions() {
    assert_eq!(
        PlaneSize::new(0, 480, 3),
        Err(PlaneError::InvalidPlane {
            width: 0,
            height: 480,
            channels: 3
        })
    );
    assert!(PlaneSize::new(640, 0, 3).is_err());
    assert!(PlaneSize::new(640, 480, 0).is_err());
    let plane = PlaneSize::new(640, 480, 3).unwrap();
    assert_eq!(plane.w(), 640);
    assert_eq!(plane.h(), 480);
    assert_eq!(plane.c(), 3);
    assert_eq!(plane.w_usize(), 640);
    assert_eq!(plane.h_usize(), 480);
    assert_eq!(plane.c_usize(), 3);
    assert_eq!(plane.area_wh(), 307_200);
    assert_eq!(plane.area_wc(), 1920);
    assert_eq!(plane.area_hc(), 1440);
    assert_eq!(plane.volume(), 921_600);
}

#[test]
fn default_plane_is_one_pixel() {
    let plane = PlaneSize::default();
    assert_eq!((plane.w(), plane.h(), plane.c()), (1, 1, 1));
    assert_eq!(plane.volume(), 1);
}

#[test]
fn coord_accessors() {
    let flat = Coord::new_2d(3, 4);
    assert!(flat.is_2d());
    assert!(!flat.is_3d());
    assert_eq!(flat.c(), None);
    assert_eq!(flat.c_usize(), 0);
    let deep = Coord::new_3d(3, 4, 2);
    assert!(deep.is_3d());
    assert_eq!(deep.c_usize(), 2);
    assert_eq!(deep, Coord::new(3, 4, Some(2)));
    assert_eq!((deep.x(), deep.y()), (3, 4));
    assert_eq!((deep.x_usize(), deep.y_usize()), (3, 4));
    assert_eq!(Coord::default(), Coord::new(0, 0, Some(0)));
}

#[test]
fn coord_validity_and_eof() {
    let eof = Coord::new(EOF_PX_ADDRESS, EOF_PX_ADDRESS, Some(0));
    assert!(eof.is_eof());
    assert!(!eof.is_valid());
    let half = Coord::new(EOF_PX_ADDRESS, 1, None);
    assert!(!half.is_eof());
    assert!(!half.is_valid());
    let plain = Coord::new(1, 1, None);
    assert!(plain.is_valid());
    assert!(!plain.is_eof());
    assert!(eof_event().coord.is_eof());
    assert_eq!(eof_event().d, 0);
    assert_eq!(eof_event().delta_t, 0);
}

#[test]
fn events_convert() {
    let event = Event {
        coord: Coord::new(7, 9, Some(1)),
        d: 5,
        delta_t: 1234,
    };
    let single = EventSingle::from(&event);
    assert_eq!(
        single,
        EventSingle {
            coord: CoordSingle { x: 7, y: 9 },
            d: 5,
            delta_t: 1234
        }
    );
    let back = Event::from(single);
    assert_eq!(back.coord, Coord::new(7, 9, None));
    assert_eq!((back.d, back.delta_t), (5, 1234));
    let stripped = EventCoordless::from(event);
    assert_eq!(stripped, EventCoordless { d: 5, delta_t: 1234 });
    assert_eq!(stripped.t(), 1234);
    assert!(EventCoordless::zero().is_zero());
    assert!(!stripped.is_zero());
}

#[test]
fn constants_and_defaults() {
    assert_eq!(D_MAX, 127);
    assert_eq!(D_EMPTY, 255);
    assert_eq!(D_ZERO_INTEGRATION, 254);
    assert_eq!(D_START, 7);
    assert_eq!(EOF_PX_ADDRESS, u16::MAX);
    assert_eq!(TimeMode::default(), TimeMode::AbsoluteT);
    assert_eq!(SourceCamera::default(), SourceCamera::FramedU8);
}

#[test]
fn cameras_describe_themselves() {
    assert_eq!(
        SourceCamera::FramedU8.description(),
        "FramedU8 - Framed video with 8-bit pixel depth, unsigned integer"
    );
    assert_eq!(
        SourceCamera::Dvs.description(),
        "Dvs - Dynamic Vision System camera"
    );
    assert_eq!(
        SourceCamera::Asint.description(),
        "Asint - Asynchronous Integration camera"
    );
    assert_eq!(
        SourceCamera::FramedF64.description(),
        "FramedU8 - Framed camera with 64-bit pixel depth, floating point"
    );
}

#[test]
fn a_transition_is_copied_with_its_frame() {
    let first = Transition { frame_idx: 1 };
    let second = first;
    assert_eq!(first.frame_idx, 1);
    assert_eq!(second, first);
    assert_ne!(second, Transition { frame_idx: 2 });
}
