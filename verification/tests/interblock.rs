use adder_codec_core::codec::compressed::adu::interblock::{
    check_dt_residuals, decompress_dt_residuals, dt_resid_offset_i16, dt_resid_offset_i16_inverse,
    AduInterBlock,
};
use adder_codec_core::codec::compressed::adu::intrablock::AduIntraBlock;
use adder_codec_core::codec::compressed::blocks::{BLOCK_SIZE_AREA, D_ENCODE_NO_EVENT};
use adder_codec_core::codec::compressed::stream::{
    CompressedInput, CompressedOutput, DT_CONTEXT, D_CONTEXT, EOF_CONTEXT, U8_GENERAL_CONTEXT,
};
use adder_codec_core::codec::{CodecError, CodecMetadata};
use rand::rngs::StdRng;
use rand::{RngExt, SeedableRng};

fn setup_encoder() -> CompressedOutput {
    let meta = CodecMetadata {
        delta_t_max: 100,
        ref_interval: 100,
        ..Default::default()
    };
    CompressedOutput::new(meta).unwrap()
}

fn gen_random_intra_block(head_event_t: u32, delta_t_max: u32, seed: Option<u64>) -> AduIntraBlock {
    let mut rng = match seed {
        None => StdRng::seed_from_u64(0x5eed),
        Some(num) => StdRng::seed_from_u64(num),
    };
    let mut d_residuals = [D_ENCODE_NO_EVENT; BLOCK_SIZE_AREA];
    let mut dt_residuals = [0i16; BLOCK_SIZE_AREA];
    let bound = delta_t_max.min(i16::MAX as u32) as i32;
    for i in 0..BLOCK_SIZE_AREA {
        if rng.random::<u8>() % 8 != 0 {
            d_residuals[i] = rng.random_range(-3i16..=3);
            dt_residuals[i] = rng.random_range(-bound..=bound) as i16;
        }
    }
    AduIntraBlock {
        head_event_t,
        head_event_d: rng.random::<u8>() % 128,
        shift_loss_param: rng.random::<u8>(),
        d_residuals,
        dt_residuals,
    }
}

fn compress_inter_block() -> (AduInterBlock, Vec<u8>) {
    let mut encoder = setup_encoder();
    let intra_block = gen_random_intra_block(1234, encoder.meta().delta_t_max, Some(7));
    // For convenience, we'll just use the intra block's generator.
    let inter_block = AduInterBlock {
        shift_loss_param: intra_block.shift_loss_param,
        d_residuals: intra_block.d_residuals,
        t_residuals: intra_block.dt_residuals,
    };

    assert!(inter_block.compress(&mut encoder).is_ok());

    let written_data = encoder.into_writer().unwrap();

    (inter_block, written_data)
}

#[test]
fn test_compress_inter_block() {
    let (_, written_data) = compress_inter_block();
    let output_len = written_data.len();
    let input_len = 1028; // Rough approximation
    assert!(output_len < input_len);
    println!("Written data: {:?}", written_data);
}

#[test]
fn test_decompress_inter_block() {
    let (inter_block, written_data) = compress_inter_block();

    let mut compressed_input = CompressedInput::new(written_data, 100, 100).unwrap();

    let decoded_inter_block = AduInterBlock::decompress(&mut compressed_input).unwrap();

    compressed_input.set_context(EOF_CONTEXT).unwrap();
    let eof = compressed_input.decode().unwrap();
    assert!(eof.is_none());
    assert_eq!(
        inter_block.shift_loss_param,
        decoded_inter_block.shift_loss_param
    );
    assert_eq!(inter_block.d_residuals, decoded_inter_block.d_residuals);
    assert_eq!(inter_block.t_residuals, decoded_inter_block.t_residuals);
}

#[test]
fn test_decompress_mostly_empty_interblock() {
    let mut encoder = CompressedOutput::new(CodecMetadata {
        codec_version: 0,
        header_size: 0,
        time_mode: Default::default(),
        plane: Default::default(),
        tps: 0,
        ref_interval: 255,
        delta_t_max: 102000,
        event_size: 0,
        source_camera: Default::default(),
    })
    .unwrap();

    let dtm = encoder.meta().delta_t_max;
    let ref_interval = encoder.meta().ref_interval;

    let mut d_residuals = [D_ENCODE_NO_EVENT; BLOCK_SIZE_AREA];
    d_residuals[39] = -2;

    let mut t_residuals = [0; BLOCK_SIZE_AREA];
    t_residuals[39] = -1;
    let reference_block = AduInterBlock {
        shift_loss_param: 7,
        d_residuals,
        t_residuals,
    };

    assert!(reference_block.compress(&mut encoder).is_ok());

    let written_data = encoder.into_writer().unwrap();

    let mut compressed_input = CompressedInput::new(written_data, dtm, ref_interval).unwrap();

    let decoded_inter_block = AduInterBlock::decompress(&mut compressed_input).unwrap();

    compressed_input.set_context(EOF_CONTEXT).unwrap();
    let eof = compressed_input.decode().unwrap();
    assert!(eof.is_none());
    assert_eq!(
        reference_block.shift_loss_param,
        decoded_inter_block.shift_loss_param
    );
    assert_eq!(reference_block.d_residuals, decoded_inter_block.d_residuals);
    assert_eq!(reference_block.t_residuals, decoded_inter_block.t_residuals);
    assert_eq!(reference_block, decoded_inter_block);
}

#[test]
fn intra_block_comes_back() {
    let mut encoder = setup_encoder();
    let intra_block = gen_random_intra_block(1234, 100, Some(7));
    assert_eq!(intra_block.compress(&mut encoder), Ok(()));
    let written_data = encoder.into_writer().unwrap();
    assert!(written_data.len() < 1028);
    let mut input = CompressedInput::new(written_data, 100, 100).unwrap();
    let decoded = AduIntraBlock::decompress(&mut input).unwrap();
    assert_eq!(decoded, intra_block);
    assert_eq!(decoded.head_event_t, 1234);
    input.set_context(EOF_CONTEXT).unwrap();
    assert_eq!(input.decode(), Ok(None));
}

#[test]
fn time_residual_of_a_pixel_without_event_is_not_written() {
    let mut d_residuals = [D_ENCODE_NO_EVENT; BLOCK_SIZE_AREA];
    d_residuals[0] = 1;
    let mut t_residuals = [0i16; BLOCK_SIZE_AREA];
    t_residuals[0] = 5;
    t_residuals[1] = 77; // belongs to no event
    let block = AduInterBlock {
        shift_loss_param: 0,
        d_residuals,
        t_residuals,
    };
    let mut encoder = setup_encoder();
    assert_eq!(block.compress(&mut encoder), Ok(()));
    // one context switch and one value for the shift, one switch and 256 values
    // for D, one switch and one value for the time residuals
    assert_eq!(encoder.len(), 2 + 257 + 2);
    let bytes = encoder.into_writer().unwrap();
    let mut input = CompressedInput::new(bytes, 100, 100).unwrap();
    let decoded = AduInterBlock::decompress(&mut input).unwrap();
    assert_eq!(decoded.d_residuals, block.d_residuals);
    assert_eq!(decoded.t_residuals[0], 5);
    assert_eq!(decoded.t_residuals[1], 0);
}

#[test]
fn a_residual_out_of_range_is_refused_before_anything_is_written() {
    let mut d_residuals = [D_ENCODE_NO_EVENT; BLOCK_SIZE_AREA];
    d_residuals[5] = 0;
    let mut t_residuals = [0i16; BLOCK_SIZE_AREA];
    t_residuals[5] = 101;
    let block = AduInterBlock {
        shift_loss_param: 0,
        d_residuals,
        t_residuals,
    };
    let mut encoder = setup_encoder();
    assert_eq!(block.compress(&mut encoder), Err(CodecError::InvalidInput));
    assert_eq!(encoder.len(), 0);
    assert!(!block.check(100));
    assert!(block.check(101));

    let mut bad_d = AduInterBlock::empty();
    bad_d.d_residuals[0] = 257;
    assert_eq!(bad_d.compress(&mut encoder), Err(CodecError::InvalidInput));
    bad_d.d_residuals[0] = -256;
    assert_eq!(bad_d.compress(&mut encoder), Err(CodecError::InvalidInput));
    bad_d.d_residuals[0] = -255;
    assert_eq!(bad_d.compress(&mut encoder), Ok(()));
}

#[test]
fn offset_and_its_inverse() {
    assert_eq!(dt_resid_offset_i16(-100, 100), Ok(0));
    assert_eq!(dt_resid_offset_i16(0, 100), Ok(100));
    assert_eq!(dt_resid_offset_i16(100, 100), Ok(200));
    assert_eq!(dt_resid_offset_i16(101, 100), Err(CodecError::InvalidInput));
    assert_eq!(dt_resid_offset_i16(-101, 100), Err(CodecError::InvalidInput));
    assert_eq!(dt_resid_offset_i16(-1, 102_000), Ok(101_999));
    assert_eq!(dt_resid_offset_i16(0, 0x0800_0000), Err(CodecError::InvalidInput));
    assert_eq!(dt_resid_offset_i16_inverse(0, 100), Ok(-100));
    assert_eq!(dt_resid_offset_i16_inverse(200, 100), Ok(100));
    assert_eq!(dt_resid_offset_i16_inverse(201, 100), Err(CodecError::CorruptStream));
    assert_eq!(dt_resid_offset_i16_inverse(101_999, 102_000), Ok(-1));
    assert_eq!(dt_resid_offset_i16_inverse(0, 102_000), Err(CodecError::CorruptStream));
    for r in -100i16..=100 {
        let symbol = dt_resid_offset_i16(r, 100).unwrap();
        assert_eq!(dt_resid_offset_i16_inverse(symbol, 100), Ok(r));
    }
}

#[test]
fn a_time_value_that_fits_no_block_shows_a_corrupt_stream() {
    let meta = CodecMetadata {
        delta_t_max: 102_000,
        ref_interval: 255,
        ..Default::default()
    };
    let mut encoder = CompressedOutput::new(meta).unwrap();
    encoder.set_context(U8_GENERAL_CONTEXT).unwrap();
    encoder.encode(0).unwrap();
    encoder.set_context(D_CONTEXT).unwrap();
    encoder.encode(255).unwrap(); // an event at the first pixel
    for _ in 1..256 {
        encoder.encode(511).unwrap();
    }
    encoder.set_context(DT_CONTEXT).unwrap();
    encoder.encode(0).unwrap(); // stands for -102000
    let bytes = encoder.into_writer().unwrap();
    let mut input = CompressedInput::new(bytes, 102_000, 255).unwrap();
    assert_eq!(
        AduInterBlock::decompress(&mut input),
        Err(CodecError::CorruptStream)
    );
}

#[test]
fn a_stream_that_ends_early_is_reported() {
    let encoder = setup_encoder();
    let bytes = encoder.into_writer().unwrap();
    let mut input = CompressedInput::new(bytes, 100, 100).unwrap();
    assert_eq!(
        AduInterBlock::decompress(&mut input),
        Err(CodecError::PrematureEof)
    );
    assert!(input.finished());
    assert!(!input.failed());
    assert_eq!(
        AduIntraBlock::decompress(&mut input),
        Err(CodecError::PrematureEof)
    );
}

#[test]
fn inter_block_is_laid_out_value_by_value() {
    let mut d_residuals = [D_ENCODE_NO_EVENT; BLOCK_SIZE_AREA];
    d_residuals[39] = -2;
    d_residuals[40] = 255;
    d_residuals[41] = -255;
    let mut t_residuals = [0i16; BLOCK_SIZE_AREA];
    t_residuals[39] = -1;
    t_residuals[40] = 100;
    t_residuals[41] = -100;
    let block = AduInterBlock {
        shift_loss_param: 7,
        d_residuals,
        t_residuals,
    };
    let mut encoder = setup_encoder();
    block.compress(&mut encoder).unwrap();
    let bytes = encoder.into_writer().unwrap();

    let mut input = CompressedInput::new(bytes, 100, 100).unwrap();
    input.set_context(U8_GENERAL_CONTEXT).unwrap();
    assert_eq!(input.decode(), Ok(Some(7)));
    input.set_context(D_CONTEXT).unwrap();
    for i in 0..BLOCK_SIZE_AREA {
        let expected = match i {
            39 => 253,
            40 => 510,
            41 => 0,
            _ => 511,
        };
        assert_eq!(input.decode(), Ok(Some(expected)));
    }
    input.set_context(DT_CONTEXT).unwrap();
    assert_eq!(input.decode(), Ok(Some(99)));
    assert_eq!(input.decode(), Ok(Some(200)));
    assert_eq!(input.decode(), Ok(Some(0)));
    input.set_context(EOF_CONTEXT).unwrap();
    assert_eq!(input.decode(), Ok(None));
}

#[test]
fn a_block_is_checked_against_any_time_span() {
    let mut block = AduInterBlock::empty();
    block.d_residuals[5] = 0;
    block.t_residuals[5] = i16::MAX;
    assert!(!block.check(32_766));
    assert!(block.check(32_767));
    assert!(block.check(0x0800_0000));
    assert!(block.check(u32::MAX));
    block.t_residuals[5] = i16::MIN;
    assert!(!block.check(32_767));
    assert!(block.check(32_768));
    assert!(block.check(u32::MAX));
    assert!(check_dt_residuals(
        &block.t_residuals,
        &block.d_residuals,
        u32::MAX
    ));
    assert!(!check_dt_residuals(&block.t_residuals, &block.d_residuals, 0));
    // a residual where there is no event is not looked at
    block.d_residuals[5] = D_ENCODE_NO_EVENT;
    assert!(check_dt_residuals(&block.t_residuals, &block.d_residuals, 0));

    let mut first = AduIntraBlock::empty();
    first.d_residuals[7] = 0;
    first.dt_residuals[7] = -200;
    assert!(!first.check(199));
    assert!(first.check(200));
    assert!(first.check(u32::MAX));
}

#[test]
fn slots_without_an_event_stay_when_reading_stops() {
    let meta = CodecMetadata {
        delta_t_max: 102_000,
        ref_interval: 255,
        ..Default::default()
    };
    let mut encoder = CompressedOutput::new(meta).unwrap();
    encoder.set_context(DT_CONTEXT).unwrap();
    encoder.encode(102_007).unwrap(); // stands for 7
    encoder.encode(0).unwrap(); // stands for -102000
    let bytes = encoder.into_writer().unwrap();

    let mut d_residuals = [D_ENCODE_NO_EVENT; BLOCK_SIZE_AREA];
    d_residuals[3] = 0;
    d_residuals[9] = 0;
    let mut dt_residuals = [0i16; BLOCK_SIZE_AREA];
    for (k, slot) in dt_residuals.iter_mut().enumerate() {
        *slot = 1000 + k as i16;
    }
    let mut input = CompressedInput::new(bytes, 102_000, 255).unwrap();
    assert_eq!(
        decompress_dt_residuals(&mut dt_residuals, &d_residuals, &mut input),
        Err(CodecError::CorruptStream)
    );
    for k in 0..BLOCK_SIZE_AREA {
        if k != 3 && k != 9 {
            assert_eq!(dt_residuals[k], 1000 + k as i16);
        }
    }
}

#[test]
fn time_residuals_are_read_one_for_each_event() {
    let meta = CodecMetadata {
        delta_t_max: 500,
        ref_interval: 255,
        ..Default::default()
    };
    let mut encoder = CompressedOutput::new(meta).unwrap();
    encoder.set_context(DT_CONTEXT).unwrap();
    encoder.encode(507).unwrap(); // stands for 7
    encoder.encode(0).unwrap(); // stands for -500
    encoder.encode(1000).unwrap(); // stands for 500
    let bytes = encoder.into_writer().unwrap();

    let mut d_residuals = [D_ENCODE_NO_EVENT; BLOCK_SIZE_AREA];
    d_residuals[0] = 0;
    d_residuals[100] = -3;
    d_residuals[255] = 255;
    let mut dt_residuals = [-1i16; BLOCK_SIZE_AREA];
    let mut input = CompressedInput::new(bytes, 500, 255).unwrap();
    assert_eq!(
        decompress_dt_residuals(&mut dt_residuals, &d_residuals, &mut input),
        Ok(())
    );
    let mut expected = [-1i16; BLOCK_SIZE_AREA];
    expected[0] = 7;
    expected[100] = -500;
    expected[255] = 500;
    assert_eq!(dt_residuals, expected);
    input.set_context(EOF_CONTEXT).unwrap();
    assert_eq!(input.decode(), Ok(None));
}
