use adder_codec_core::codec::compressed::stream::{
    CompressedInput, CompressedOutput, DT_CONTEXT, D_CONTEXT, EOF_CONTEXT, U8_GENERAL_CONTEXT,
};
use adder_codec_core::codec::{CodecError, CodecMetadata};

fn meta(delta_t_max: u32) -> CodecMetadata {
    CodecMetadata {
        delta_t_max,
        ref_interval: 100,
        ..Default::default()
    }
}

#[test]
fn symbols_come_back_under_their_contexts() {
    let mut output = CompressedOutput::new(meta(100)).unwrap();
    let values: Vec<(usize, usize)> = vec![
        (U8_GENERAL_CONTEXT, 0),
        (U8_GENERAL_CONTEXT, 255),
        (D_CONTEXT, 511),
        (D_CONTEXT, 0),
        (D_CONTEXT, 253),
        (DT_CONTEXT, 0),
        (DT_CONTEXT, 200),
        (DT_CONTEXT, 99),
        (U8_GENERAL_CONTEXT, 17),
        (EOF_CONTEXT, 0),
        (U8_GENERAL_CONTEXT, 17),
    ];
    for (context, value) in values.iter() {
        output.set_context(*context).unwrap();
        output.encode(*value).unwrap();
    }
    let bytes = output.into_writer().unwrap();
    assert!(!bytes.is_empty());

    let mut input = CompressedInput::new(bytes, 100, 100).unwrap();
    for (context, value) in values.iter() {
        input.set_context(*context).unwrap();
        assert_eq!(input.decode(), Ok(Some(*value)));
    }
    input.set_context(EOF_CONTEXT).unwrap();
    assert_eq!(input.decode(), Ok(None));
    assert!(input.finished());
    // nothing comes after the end
    assert_eq!(input.decode(), Ok(None));
    input.set_context(U8_GENERAL_CONTEXT).unwrap();
    assert_eq!(input.decode(), Ok(None));
}

#[test]
fn many_symbols_adapt_and_come_back() {
    let mut output = CompressedOutput::new(meta(1000)).unwrap();
    let mut values: Vec<(usize, usize)> = Vec::new();
    let mut state: u64 = 12345;
    for i in 0..60000usize {
        state = state.wrapping_mul(6364136223846793005).wrapping_add(1442695040888963407);
        let pick = (state >> 33) as usize;
        let entry = match i % 3 {
            0 => (U8_GENERAL_CONTEXT, pick % 7),
            1 => (D_CONTEXT, 250 + pick % 10),
            _ => (DT_CONTEXT, pick % 2001),
        };
        values.push(entry);
    }
    for (context, value) in values.iter() {
        output.set_context(*context).unwrap();
        output.encode(*value).unwrap();
    }
    let bytes = output.into_writer().unwrap();
    let mut input = CompressedInput::new(bytes, 1000, 100).unwrap();
    for (context, value) in values.iter() {
        input.set_context(*context).unwrap();
        assert_eq!(input.decode(), Ok(Some(*value)));
    }
    input.set_context(EOF_CONTEXT).unwrap();
    assert_eq!(input.decode(), Ok(None));
}

#[test]
fn a_value_outside_the_alphabet_is_refused() {
    let mut output = CompressedOutput::new(meta(100)).unwrap();
    output.set_context(U8_GENERAL_CONTEXT).unwrap();
    assert_eq!(output.encode(256), Err(CodecError::InvalidInput));
    assert_eq!(output.encode(255), Ok(()));
    output.set_context(DT_CONTEXT).unwrap();
    assert_eq!(output.encode(201), Err(CodecError::InvalidInput));
    assert_eq!(output.encode(200), Ok(()));
    output.set_context(EOF_CONTEXT).unwrap();
    assert_eq!(output.encode(1), Err(CodecError::InvalidInput));
    assert_eq!(output.set_context(4), Err(CodecError::InvalidInput));
    assert_eq!(output.len(), 5);
}

#[test]
fn a_stream_without_bytes_ends_before_it_starts() {
    assert!(matches!(
        CompressedInput::new(Vec::new(), 100, 100),
        Err(CodecError::UnexpectedEof)
    ));
    assert!(matches!(
        CompressedInput::new(vec![0], 0x0800_0000, 100),
        Err(CodecError::InvalidInput)
    ));
    assert!(matches!(
        CompressedOutput::new(meta(0x0800_0000)),
        Err(CodecError::InvalidInput)
    ));
}
