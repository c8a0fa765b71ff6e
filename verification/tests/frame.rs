use adder_codec_core::codec::compressed::adu::cube::AduCube;
use adder_codec_core::codec::compressed::adu::frame::{Adu, AduChannel, AduChannelType};
use adder_codec_core::codec::compressed::adu::interblock::AduInterBlock;
use adder_codec_core::codec::compressed::adu::intrablock::AduIntraBlock;
use adder_codec_core::codec::compressed::blocks::{BLOCK_SIZE_AREA, D_ENCODE_NO_EVENT};
use adder_codec_core::codec::compressed::stream::{
    CompressedInput, CompressedOutput, DT_CONTEXT, D_CONTEXT, EOF_CONTEXT, U8_GENERAL_CONTEXT,
};
use adder_codec_core::codec::{CodecError, CodecMetadata};
use rand::rngs::StdRng;
use rand::{RngExt, SeedableRng};

fn meta(delta_t_max: u32) -> CodecMetadata {
    CodecMetadata {
        delta_t_max,
        ref_interval: 100,
        ..Default::default()
    }
}

fn setup_encoder() -> CompressedOutput {
    CompressedOutput::new(meta(100)).unwrap()
}

fn random_intra_block(rng: &mut StdRng, head_event_t: u32, delta_t_max: u32) -> AduIntraBlock {
    let mut d_residuals = [D_ENCODE_NO_EVENT; BLOCK_SIZE_AREA];
    let mut dt_residuals = [0i16; BLOCK_SIZE_AREA];
    let bound = delta_t_max.min(i16::MAX as u32) as i32;
    for i in 0..BLOCK_SIZE_AREA {
        if rng.random::<u8>() % 8 != 0 {
            d_residuals[i] = rng.random_range(-3i16..=3);
            dt_residuals[i] = rng.random_range(-bound..=bound) as i16;
        }
    }
    AduIntraBlock {
        head_event_t,
        head_event_d: rng.random::<u8>() % 128,
        shift_loss_param: rng.random::<u8>(),
        d_residuals,
        dt_residuals,
    }
}

fn setup_channel(encoder: &CompressedOutput, seed: u64) -> AduChannel {
    let mut rng = StdRng::seed_from_u64(seed);
    let delta_t_max = encoder.meta().delta_t_max;
    let mut channel = AduChannel::new();
    for _ in 0..10 {
        let intra_block = random_intra_block(&mut rng, 1234, delta_t_max);
        let mut cube = AduCube::from_intra_block(intra_block, rng.random(), rng.random());

        for _ in 0..10 {
            let intra_block = random_intra_block(&mut rng, 1234, delta_t_max);
            // For convenience, we'll just use the intra block's generator.
            let inter_block = AduInterBlock {
                shift_loss_param: intra_block.shift_loss_param,
                d_residuals: intra_block.d_residuals,
                t_residuals: intra_block.dt_residuals,
            };
            cube.add_inter_block(inter_block);
        }
        channel.add_cube(cube);
    }
    channel
}

fn compress_channel() -> (AduChannel, Vec<u8>) {
    let mut encoder = setup_encoder();
    let channel = setup_channel(&encoder, 7);

    assert!(channel.compress(&mut encoder).is_ok());

    let written_data = encoder.into_writer().unwrap();

    (channel, written_data)
}

#[test]
fn test_compress_channel() {
    let (_, written_data) = compress_channel();
    let output_len = written_data.len();
    let input_len = 1028 * 11 * 10; // Rough approximation
    assert!(output_len < input_len);
    // the residuals alone, as pairs of 16-bit numbers
    assert!(output_len < 256 * 11 * 10 * 4);
    println!("Output length: {}", output_len);
    println!("Input length: {}", input_len);
}

#[test]
fn test_decompress_channel() {
    let (channel, written_data) = compress_channel();

    let mut decoder = CompressedInput::new(written_data, 100, 100).unwrap();

    let decoded_channel = AduChannel::decompress(&mut decoder).unwrap();

    decoder.set_context(EOF_CONTEXT).unwrap();
    let eof = decoder.decode().unwrap();
    assert!(eof.is_none());
    assert_eq!(channel.num_cubes(), decoded_channel.num_cubes());
    assert_eq!(channel.num_cubes(), 10);

    for (cube, decoded_cube) in channel.cubes().iter().zip(decoded_channel.cubes().iter()) {
        assert_eq!(cube.idx_y(), decoded_cube.idx_y());
        assert_eq!(cube.idx_x(), decoded_cube.idx_x());
        assert_eq!(
            cube.intra_block().head_event_t,
            decoded_cube.intra_block().head_event_t
        );
        assert_eq!(
            cube.intra_block().head_event_d,
            decoded_cube.intra_block().head_event_d
        );
        assert_eq!(
            cube.intra_block().shift_loss_param,
            decoded_cube.intra_block().shift_loss_param
        );
        assert_eq!(
            cube.intra_block().d_residuals,
            decoded_cube.intra_block().d_residuals
        );
        assert_eq!(
            cube.intra_block().dt_residuals,
            decoded_cube.intra_block().dt_residuals
        );
        assert_eq!(cube.num_inter_blocks(), decoded_cube.num_inter_blocks());
        assert_eq!(cube.num_inter_blocks(), 10);
        for (block, decoded_block) in cube
            .inter_blocks()
            .iter()
            .zip(decoded_cube.inter_blocks())
        {
            assert_eq!(block.shift_loss_param, decoded_block.shift_loss_param);
            assert_eq!(block.d_residuals, decoded_block.d_residuals);
            assert_eq!(block.t_residuals, decoded_block.t_residuals);
        }
    }
    assert_eq!(channel, decoded_channel);
}

#[test]
fn empty_adu_comes_back_and_is_small() {
    let adu = Adu::new();
    assert_eq!(adu.head_event_t(), 0);
    let bytes = adu.compress(meta(100)).unwrap();
    assert!(bytes.len() <= 16);
    let again = Adu::new().compress(meta(100)).unwrap();
    assert_eq!(bytes, again);
    // the reference interval has no part in the bytes
    let other_interval = CodecMetadata {
        delta_t_max: 100,
        ref_interval: 255,
        ..Default::default()
    };
    assert_eq!(Adu::new().compress(other_interval).unwrap(), bytes);
    // the size does not depend on the time bound either
    let wide = Adu::new().compress(meta(102_000)).unwrap();
    assert_eq!(bytes.len(), wide.len());
    let decoded = Adu::decompress(bytes, 100, 100).unwrap();
    assert_eq!(decoded, adu);
    assert_eq!(decoded.cubes_r().num_cubes(), 0);
    assert_eq!(decoded.cubes_g().num_cubes(), 0);
    assert_eq!(decoded.cubes_b().num_cubes(), 0);
}

#[test]
fn single_cube_with_one_intra_block_comes_back() {
    let mut d_residuals = [D_ENCODE_NO_EVENT; BLOCK_SIZE_AREA];
    d_residuals[39] = -2;
    let mut dt_residuals = [0i16; BLOCK_SIZE_AREA];
    dt_residuals[39] = -1;
    let intra_block = AduIntraBlock {
        head_event_t: 1000,
        head_event_d: 7,
        shift_loss_param: 0,
        d_residuals,
        dt_residuals,
    };
    let cube = AduCube::from_intra_block(intra_block, 3, 5);
    let mut encoder = setup_encoder();
    assert_eq!(cube.compress(&mut encoder), Ok(()));
    let bytes = encoder.into_writer().unwrap();
    let mut input = CompressedInput::new(bytes, 100, 100).unwrap();
    let decoded = AduCube::decompress(&mut input).unwrap();
    assert_eq!(decoded.idx_y(), 3);
    assert_eq!(decoded.idx_x(), 5);
    assert_eq!(decoded.intra_block().head_event_d, 7);
    assert_eq!(decoded.intra_block().head_event_t, 1000);
    assert_eq!(decoded.intra_block().shift_loss_param, 0);
    assert_eq!(decoded.intra_block().d_residuals, d_residuals);
    assert_eq!(decoded.intra_block().dt_residuals, dt_residuals);
    assert_eq!(decoded.num_inter_blocks(), 0);
    assert!(decoded.inter_blocks().is_empty());
    assert_eq!(decoded, cube);
}

#[test]
fn adu_with_cubes_in_every_channel_comes_back() {
    let mut rng = StdRng::seed_from_u64(21);
    let mut adu = Adu::new();
    adu.set_head_event_t(0xdead_beef);
    for (count, channel) in [
        (2usize, AduChannelType::R),
        (0, AduChannelType::G),
        (3, AduChannelType::B),
    ] {
        for k in 0..count {
            let intra_block = random_intra_block(&mut rng, 77 + k as u32, 100);
            let mut cube = AduCube::from_intra_block(intra_block, k as u8, 2 * k as u8);
            for _ in 0..k {
                let block = random_intra_block(&mut rng, 0, 100);
                cube.add_inter_block(AduInterBlock {
                    shift_loss_param: block.shift_loss_param,
                    d_residuals: block.d_residuals,
                    t_residuals: block.dt_residuals,
                });
            }
            adu.add_cube(cube, channel);
        }
    }
    assert_eq!(adu.cubes_r().num_cubes(), 2);
    assert_eq!(adu.cubes_g().num_cubes(), 0);
    assert_eq!(adu.cubes_b().num_cubes(), 3);
    let bytes = adu.compress(meta(100)).unwrap();
    let decoded = Adu::decompress(bytes.clone(), 100, 100).unwrap();
    assert_eq!(decoded, adu);
    assert_eq!(decoded.head_event_t(), 0xdead_beef);
    assert_eq!(decoded.cubes_b().cubes()[2].num_inter_blocks(), 2);

    // read by hand: after the unit comes the end of the stream, and it stays
    let mut input = CompressedInput::new(bytes, 100, 100).unwrap();
    let by_hand = Adu::read_from(&mut input).unwrap();
    assert_eq!(by_hand, adu);
    input.set_context(EOF_CONTEXT).unwrap();
    assert_eq!(input.decode(), Ok(None));
    assert_eq!(input.decode(), Ok(None));
    assert!(input.finished());
}

#[test]
fn adu_refuses_what_it_cannot_write() {
    let mut adu = Adu::new();
    let mut intra_block = AduIntraBlock::empty();
    intra_block.d_residuals[0] = 300;
    adu.add_cube(AduCube::from_intra_block(intra_block, 0, 0), AduChannelType::G);
    assert_eq!(adu.compress(meta(100)), Err(CodecError::InvalidInput));
    assert_eq!(
        Adu::new().compress(meta(0x0800_0000)),
        Err(CodecError::InvalidInput)
    );
    assert_eq!(
        Adu::decompress(vec![1, 2, 3], 0x0800_0000, 100),
        Err(CodecError::InvalidInput)
    );
    assert_eq!(
        Adu::decompress(Vec::new(), 100, 100),
        Err(CodecError::UnexpectedEof)
    );
}

#[test]
fn a_unit_that_does_not_end_where_it_should_is_corrupt() {
    // two units back to back: after the first comes a value, not the end
    let mut encoder = setup_encoder();
    Adu::new().write_to(&mut encoder).unwrap();
    encoder.set_context(EOF_CONTEXT).unwrap();
    encoder.encode(0).unwrap();
    Adu::new().write_to(&mut encoder).unwrap();
    let bytes = encoder.into_writer().unwrap();
    assert_eq!(
        Adu::decompress(bytes.clone(), 100, 100),
        Err(CodecError::CorruptStream)
    );
    let mut input = CompressedInput::new(bytes, 100, 100).unwrap();
    assert_eq!(Adu::read_from(&mut input), Ok(Adu::new()));
    input.set_context(EOF_CONTEXT).unwrap();
    assert_eq!(input.decode(), Ok(Some(0)));
    assert_eq!(Adu::read_unit(&mut input), Ok(Adu::new()));
}

#[test]
fn adu_is_laid_out_field_by_field() {
    let mut adu = Adu::new();
    adu.set_head_event_t(0x0102_0304);
    let mut intra_block = AduIntraBlock::empty();
    intra_block.head_event_d = 9;
    intra_block.head_event_t = 0x0a0b_0c0d;
    intra_block.shift_loss_param = 4;
    intra_block.d_residuals[0] = 3;
    intra_block.dt_residuals[0] = -7;
    let mut cube = AduCube::from_intra_block(intra_block, 3, 5);
    cube.add_inter_block(AduInterBlock::empty());
    adu.add_cube(cube, AduChannelType::G);
    let bytes = adu.compress(meta(100)).unwrap();

    let mut input = CompressedInput::new(bytes, 100, 100).unwrap();
    let mut expect = |input: &mut CompressedInput, context: usize, values: &[usize]| {
        input.set_context(context).unwrap();
        for value in values {
            assert_eq!(input.decode(), Ok(Some(*value)));
        }
    };
    // the time of the first event, then red without cubes
    expect(&mut input, U8_GENERAL_CONTEXT, &[1, 2, 3, 4]);
    expect(&mut input, U8_GENERAL_CONTEXT, &[0, 0]);
    // green: one cube at row 3 and column 5
    expect(&mut input, U8_GENERAL_CONTEXT, &[0, 1]);
    expect(&mut input, U8_GENERAL_CONTEXT, &[3, 5]);
    expect(&mut input, U8_GENERAL_CONTEXT, &[9, 0x0a, 0x0b, 0x0c, 0x0d, 4]);
    let mut d_values = vec![511usize; 256];
    d_values[0] = 258;
    expect(&mut input, D_CONTEXT, &d_values);
    expect(&mut input, DT_CONTEXT, &[93]);
    // one block after the first, without events
    expect(&mut input, U8_GENERAL_CONTEXT, &[0, 1]);
    expect(&mut input, U8_GENERAL_CONTEXT, &[0]);
    expect(&mut input, D_CONTEXT, &vec![511usize; 256]);
    expect(&mut input, DT_CONTEXT, &[]);
    // blue without cubes, and the end
    expect(&mut input, U8_GENERAL_CONTEXT, &[0, 0]);
    input.set_context(EOF_CONTEXT).unwrap();
    assert_eq!(input.decode(), Ok(None));
}

#[test]
fn a_count_above_a_byte_is_written_upper_byte_first() {
    let mut channel = AduChannel::new();
    for k in 0..300u32 {
        let cube = AduCube::from_intra_block(AduIntraBlock::empty(), (k % 256) as u8, 0);
        channel.add_cube(cube);
    }
    let mut encoder = setup_encoder();
    channel.compress(&mut encoder).unwrap();
    let bytes = encoder.into_writer().unwrap();
    let mut input = CompressedInput::new(bytes.clone(), 100, 100).unwrap();
    input.set_context(U8_GENERAL_CONTEXT).unwrap();
    assert_eq!(input.decode(), Ok(Some(1)));
    assert_eq!(input.decode(), Ok(Some(44)));
    let mut input = CompressedInput::new(bytes, 100, 100).unwrap();
    let decoded = AduChannel::decompress(&mut input).unwrap();
    assert_eq!(decoded.num_cubes(), 300);
    assert_eq!(decoded, channel);
}
