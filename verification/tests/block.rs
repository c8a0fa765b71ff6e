use adder_codec_core::codec::compressed::blocks::block::{
    predict_residual_from_prev, reconstruct_from_prev, set_event_for_channel, Block, BlockError,
    Cube, Frame,
};
use adder_codec_core::codec::compressed::blocks::{
    EventResidual, BLOCK_SIZE, BLOCK_SIZE_AREA, D_ENCODE_NO_EVENT,
};
use adder_codec_core::{Coord, Event, EventCoordless};
use rand::rngs::StdRng;
use rand::{RngExt, SeedableRng};

fn setup_frame(events: Vec<Event>) -> Frame {
    let mut frame = Frame::new(640, 480, true);

    for event in events {
        frame.add_event(event).unwrap();
    }
    frame
}

fn get_random_events(num: usize) -> Vec<Event> {
    let mut rng = StdRng::seed_from_u64(11);
    let mut events = Vec::with_capacity(num);
    for _ in 0..num {
        events.push(Event {
            coord: Coord {
                x: rng.random::<u16>() % 640,
                y: rng.random::<u16>() % 480,
                c: Some(rng.random::<u8>() % 3),
            },
            d: rng.random::<u8>(),
            delta_t: rng.random::<u32>(),
        });
    }
    events
}

#[test]
fn test_setup_frame() {
    let events = get_random_events(10000);
    let _frame = setup_frame(events);
}

/// Test that cubes are growing correctlly, according to the incoming events.
#[test]
fn test_cube_growth() {
    let events = get_random_events(100000);
    let frame = setup_frame(events.clone());

    let mut cube_counts_r = vec![0; frame.cubes().len()];
    let mut cube_counts_g = vec![0; frame.cubes().len()];
    let mut cube_counts_b = vec![0; frame.cubes().len()];

    for event in events {
        let cube_idx = frame.event_coord_to_block_idx(&event).cube_idx;
        let cube_counts = match event.coord.c.unwrap_or(0) {
            0 => &mut cube_counts_r,
            1 => &mut cube_counts_g,
            2 => &mut cube_counts_b,
            _ => panic!("Invalid color"),
        };
        cube_counts[cube_idx] += 1;
    }

    for (cube_idx, cube) in frame.cubes().iter().enumerate() {
        // total fill count for r blocks
        let mut fill_count_r = 0;
        for block in cube.blocks_r() {
            assert!(block.fill_count() <= BLOCK_SIZE_AREA as u16);
            fill_count_r += block.fill_count();
        }
        assert_eq!(fill_count_r, cube_counts_r[cube_idx]);

        // total fill count for g blocks
        let mut fill_count_g = 0;
        for block in cube.blocks_g() {
            assert!(block.fill_count() <= BLOCK_SIZE_AREA as u16);
            fill_count_g += block.fill_count();
        }
        assert_eq!(fill_count_g, cube_counts_g[cube_idx]);

        // total fill count for b blocks
        let mut fill_count_b = 0;
        for block in cube.blocks_b() {
            assert!(block.fill_count() <= BLOCK_SIZE_AREA as u16);
            fill_count_b += block.fill_count();
        }
        assert_eq!(fill_count_b, cube_counts_b[cube_idx]);
    }
}

#[test]
fn frame_has_a_cube_for_each_tile() {
    let frame = Frame::new(640, 480, true);
    assert_eq!(frame.cubes().len(), 1200); // 640 / 16 * 480 / 16
    assert_eq!(frame.cube_width(), 40);
    assert_eq!(frame.cube_height(), 30);
    assert!(frame.color());
    assert_eq!(frame.cubes()[41].cube_idx_y(), 1);
    assert_eq!(frame.cubes()[41].cube_idx_x(), 1);
    assert_eq!(frame.cubes()[1199].cube_idx_y(), 29);
    assert_eq!(frame.cubes()[1199].cube_idx_x(), 39);
    // what is left over at the edges has no cube
    let ragged = Frame::new(47, 33, false);
    assert_eq!(ragged.cube_width(), 2);
    assert_eq!(ragged.cube_height(), 2);
    assert_eq!(ragged.cubes().len(), 4);
    assert_eq!(BLOCK_SIZE, 16);
}

#[test]
fn frame_tiling_routes_to_cube_and_channel() {
    let event = Event {
        coord: Coord {
            x: 27,
            y: 13,
            c: Some(2),
        },
        d: 7,
        delta_t: 100,
    };
    let mut frame = Frame::new(640, 480, true);
    let index = frame.event_coord_to_block_idx(&event);
    assert_eq!(index.cube_idx, 1);
    assert_eq!(index.block_idx, 13 * 16 + 11);
    assert_eq!(frame.add_event(event).unwrap(), 1); // added to cube with idx=1
    let cube = &frame.cubes()[1];
    assert_eq!(cube.blocks_b().len(), 1);
    assert_eq!(
        cube.blocks_b()[0].events()[219],
        Some(EventCoordless { d: 7, delta_t: 100 })
    );
    assert_eq!(cube.blocks_b()[0].fill_count(), 1);
    assert_eq!(cube.blocks_r()[0].fill_count(), 0);
    assert_eq!(cube.blocks_g()[0].fill_count(), 0);
    assert_eq!(frame.cubes()[0].blocks_b()[0].fill_count(), 0);
}

#[test]
fn lookup_after_add_gives_the_same_place() {
    let mut frame = Frame::new(640, 480, true);
    let coord = Coord::new(300, 200, Some(1));
    assert_eq!(frame.lookup(&coord), None);
    let event = Event {
        coord,
        d: 3,
        delta_t: 50,
    };
    let expected = frame.event_coord_to_block_idx(&event);
    let cube_idx = frame.add_event(event).unwrap();
    assert_eq!(cube_idx, expected.cube_idx);
    assert_eq!(frame.lookup(&coord), Some(expected));
    assert_eq!(expected.cube_idx, (200 / 16) * 40 + 300 / 16);
    assert_eq!(expected.block_idx, (200 % 16) * 16 + 300 % 16);
    // the same pixel in another channel is another coordinate
    assert_eq!(frame.lookup(&Coord::new(300, 200, Some(2))), None);
    assert_eq!(frame.lookup(&Coord::new(300, 200, None)), None);
    frame.add_event(event).unwrap();
    assert_eq!(frame.lookup(&coord), Some(expected));
}

#[test]
fn adds_at_one_pixel_stack_up_in_depth() {
    let mut cube = Cube::new(0, 0, 0);
    let n = 5;
    for k in 0..n {
        let event = Event {
            coord: Coord::new(2, 1, Some(1)),
            d: k as u8,
            delta_t: 10 * k as u32,
        };
        cube.set_event(event, 18).unwrap();
    }
    assert_eq!(cube.blocks_g().len(), n);
    for k in 0..n {
        assert_eq!(
            cube.blocks_g()[k].events()[18],
            Some(EventCoordless {
                d: k as u8,
                delta_t: 10 * k as u32
            })
        );
        assert_eq!(cube.blocks_g()[k].fill_count(), 1);
    }
    // another pixel starts at the first block again
    cube.set_event(
        Event {
            coord: Coord::new(3, 1, Some(1)),
            d: 9,
            delta_t: 9,
        },
        19,
    )
    .unwrap();
    assert_eq!(cube.blocks_g().len(), n);
    assert_eq!(cube.blocks_g()[0].fill_count(), 2);
    assert_eq!(cube.blocks_r().len(), 1);
    assert_eq!(cube.blocks_b().len(), 1);
    // an event without a channel goes to red
    cube.set_event(
        Event {
            coord: Coord::new(3, 1, None),
            d: 9,
            delta_t: 9,
        },
        19,
    )
    .unwrap();
    assert_eq!(cube.blocks_r()[0].fill_count(), 1);
}

#[test]
fn a_block_takes_one_event_for_a_pixel() {
    let mut block = Block::new(0, 0, 0);
    assert!(!block.is_filled());
    let event = Event {
        coord: Coord::new(0, 0, None),
        d: 1,
        delta_t: 2,
    };
    assert_eq!(block.set_event(&event, 7), Ok(()));
    assert_eq!(
        block.set_event(&event, 7),
        Err(BlockError::AlreadyExists { idx: 7 })
    );
    assert_eq!(block.fill_count(), 1);
    for idx in 0..BLOCK_SIZE_AREA {
        if idx != 7 {
            block.set_event(&event, idx).unwrap();
        }
    }
    assert!(block.is_filled());
    assert_eq!(block.fill_count(), 256);
}

#[test]
fn predictor_sanity() {
    let prev = EventCoordless { d: 5, delta_t: 100 };
    let next = EventCoordless { d: 7, delta_t: 400 };
    let residual = predict_residual_from_prev(&prev, &next, 10_000);
    assert_eq!(residual, EventResidual { d: 2, delta_t: 0 });
}

#[test]
fn predictor_caps_and_falls_back() {
    let prev = EventCoordless { d: 5, delta_t: 100 };
    // the scaled delta is capped at delta_t_max
    let next = EventCoordless { d: 7, delta_t: 400 };
    assert_eq!(
        predict_residual_from_prev(&prev, &next, 300),
        EventResidual { d: 2, delta_t: 100 }
    );
    // D unchanged: the previous delta is predicted
    let same = EventCoordless { d: 5, delta_t: 90 };
    assert_eq!(
        predict_residual_from_prev(&prev, &same, 10_000),
        EventResidual { d: 0, delta_t: -10 }
    );
    // D lower: the previous delta is predicted
    let lower = EventCoordless { d: 3, delta_t: 25 };
    assert_eq!(
        predict_residual_from_prev(&prev, &lower, 10_000),
        EventResidual { d: -2, delta_t: -75 }
    );
    // a step of more than 20: the previous delta is predicted
    let far = EventCoordless { d: 30, delta_t: 7 };
    assert_eq!(
        predict_residual_from_prev(&prev, &far, u32::MAX),
        EventResidual { d: 25, delta_t: -93 }
    );
    // too little headroom: 100 has 25 leading zeros, so a step of 13 is not scaled
    let steep = EventCoordless { d: 18, delta_t: 7 };
    assert_eq!(
        predict_residual_from_prev(&prev, &steep, u32::MAX),
        EventResidual { d: 13, delta_t: -93 }
    );
    // a step of 12 is scaled: 100 << 12
    let scaled = EventCoordless { d: 17, delta_t: 409_600 };
    assert_eq!(
        predict_residual_from_prev(&prev, &scaled, u32::MAX),
        EventResidual { d: 12, delta_t: 0 }
    );
}

#[test]
fn reconstruction_inverts_prediction() {
    let mut rng = StdRng::seed_from_u64(3);
    for _ in 0..10_000 {
        let dtm = rng.random::<u32>();
        let prev = EventCoordless {
            d: rng.random::<u8>(),
            delta_t: rng.random::<u32>() >> (rng.random::<u32>() % 32),
        };
        let next = EventCoordless {
            d: rng.random::<u8>(),
            delta_t: rng.random::<u32>() >> (rng.random::<u32>() % 32),
        };
        let residual = predict_residual_from_prev(&prev, &next, dtm);
        assert_eq!(reconstruct_from_prev(&prev, &residual, dtm), Some(next));
    }
    // a residual that leads out of the fields has no event
    let prev = EventCoordless { d: 5, delta_t: 100 };
    assert_eq!(
        reconstruct_from_prev(&prev, &EventResidual { d: -6, delta_t: 0 }, 1000),
        None
    );
    assert_eq!(
        reconstruct_from_prev(&prev, &EventResidual { d: 0, delta_t: -101 }, 1000),
        None
    );
}

#[test]
fn intra_residuals_are_relative_to_the_head_event() {
    let mut block = Block::new(0, 0, 0);
    let at = |d: u8, delta_t: u32| Event {
        coord: Coord::new(0, 0, None),
        d,
        delta_t,
    };
    block.set_event(&at(5, 100), 3).unwrap();
    block.set_event(&at(7, 410), 10).unwrap();
    block.set_event(&at(4, 90), 200).unwrap();
    let residuals = block.get_intra_residuals(10_000);
    assert_eq!(residuals.head_idx, 3);
    for i in 0..256 {
        match i {
            3 => {
                assert_eq!(residuals.d_residuals[i], 5);
                assert_eq!(residuals.dt_residuals[i], 100);
            }
            10 => {
                assert_eq!(residuals.d_residuals[i], 2);
                assert_eq!(residuals.dt_residuals[i], 10);
            }
            200 => {
                assert_eq!(residuals.d_residuals[i], -1);
                assert_eq!(residuals.dt_residuals[i], -10);
            }
            _ => {
                assert_eq!(residuals.d_residuals[i], D_ENCODE_NO_EVENT);
                assert_eq!(residuals.dt_residuals[i], 0);
            }
        }
    }
    let empty = Block::new(0, 0, 0).get_intra_residuals(10_000);
    assert_eq!(empty.head_idx, 256);
    assert!(empty.d_residuals.iter().all(|d| *d == D_ENCODE_NO_EVENT));
}

#[test]
fn an_occupied_slot_refuses_the_event_and_nothing_changes() {
    let first = Event {
        coord: Coord::new(0, 0, None),
        d: 1,
        delta_t: 2,
    };
    let second = Event {
        coord: Coord::new(0, 0, None),
        d: 9,
        delta_t: 9,
    };
    let mut block = Block::new(0, 0, 0);
    block.set_event(&first, 7).unwrap();
    let mut block_vec = vec![block];
    // the map still points the pixel at the block that holds its event
    let mut block_idx_map = [0usize; BLOCK_SIZE_AREA];
    assert_eq!(
        set_event_for_channel(&mut block_vec, &mut block_idx_map, second, 7),
        Err(BlockError::AlreadyExists { idx: 7 })
    );
    assert_eq!(block_vec.len(), 1);
    assert_eq!(block_idx_map, [0usize; BLOCK_SIZE_AREA]);
    assert_eq!(block_vec[0].fill_count(), 1);
    assert_eq!(
        block_vec[0].events()[7],
        Some(EventCoordless { d: 1, delta_t: 2 })
    );
    // a free slot takes the event, and the pixel's depth grows
    assert_eq!(
        set_event_for_channel(&mut block_vec, &mut block_idx_map, second, 8),
        Ok(())
    );
    assert_eq!(block_idx_map[8], 1);
    assert_eq!(block_vec.len(), 1);
    assert_eq!(
        set_event_for_channel(&mut block_vec, &mut block_idx_map, second, 8),
        Ok(())
    );
    assert_eq!(block_idx_map[8], 2);
    assert_eq!(block_vec.len(), 2);
    assert_eq!(
        block_vec[1].events()[8],
        Some(EventCoordless { d: 9, delta_t: 9 })
    );
}
