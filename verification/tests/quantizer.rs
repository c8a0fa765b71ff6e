use adder_codec_core::codec::compressed::blocks::quantizer::{
    ac_q, dc_q, dequantize, quantize, MAX_QPARAM,
};
use adder_codec_core::codec::CodecError;

#[test]
fn step_sizes_grow_with_the_parameter() {
    assert_eq!(dc_q(0, 0, 12), Ok(1));
    assert_eq!(ac_q(0, 0, 12), Ok(1));
    assert_eq!(dc_q(1, 0, 12), Ok(33));
    assert_eq!(ac_q(1, 0, 12), Ok(49));
    assert_eq!(dc_q(63, 0, 12), Ok(2017));
    assert_eq!(ac_q(63, 0, 12), Ok(3025));
    assert_eq!(dc_q(10, 0, 8), Ok(21));
    assert_eq!(ac_q(10, 0, 10), Ok(121));
    assert_eq!(dc_q(10, -3, 8), Ok(15));
    let mut last = (0, 0);
    for q in 0..=MAX_QPARAM {
        let now = (dc_q(q, 0, 12).unwrap(), ac_q(q, 0, 12).unwrap());
        assert!(now.0 > last.0 && now.1 > last.1);
        last = now;
    }
}

#[test]
fn step_sizes_outside_the_schedule_are_refused() {
    assert_eq!(dc_q(64, 0, 12), Err(CodecError::InvalidInput));
    assert_eq!(ac_q(64, 0, 12), Err(CodecError::InvalidInput));
    assert_eq!(dc_q(63, 1, 12), Err(CodecError::InvalidInput));
    assert_eq!(dc_q(0, -1, 12), Err(CodecError::InvalidInput));
    assert_eq!(dc_q(5, 0, 11), Err(CodecError::InvalidInput));
    assert_eq!(ac_q(5, 0, 16), Err(CodecError::InvalidInput));
}

#[test]
fn quantizing_rounds_towards_zero() {
    let mut coefficients = [0i16; 256];
    coefficients[0] = 100;
    coefficients[1] = 100;
    coefficients[2] = -100;
    coefficients[3] = 48;
    coefficients[4] = -49;
    coefficients[255] = i16::MIN;
    assert_eq!(quantize(&mut coefficients, 1), Ok(()));
    assert_eq!(coefficients[0], 3); // 100 / 33
    assert_eq!(coefficients[1], 2); // 100 / 49
    assert_eq!(coefficients[2], -2);
    assert_eq!(coefficients[3], 0);
    assert_eq!(coefficients[4], -1);
    assert_eq!(coefficients[255], -668);
    assert_eq!(dequantize(&mut coefficients, 1), Ok(()));
    assert_eq!(coefficients[0], 99);
    assert_eq!(coefficients[1], 98);
    assert_eq!(coefficients[2], -98);
    assert_eq!(coefficients[3], 0);
    assert_eq!(coefficients[4], -49);
    assert_eq!(coefficients[255], -32732);
}

#[test]
fn parameter_zero_loses_nothing() {
    let mut coefficients = [0i16; 256];
    for (i, c) in coefficients.iter_mut().enumerate() {
        *c = (i as i16 - 128) * 250;
    }
    let before = coefficients;
    assert_eq!(quantize(&mut coefficients, 0), Ok(()));
    assert_eq!(coefficients, before);
    assert_eq!(dequantize(&mut coefficients, 0), Ok(()));
    assert_eq!(coefficients, before);
}

#[test]
fn a_parameter_above_the_range_is_refused() {
    let mut coefficients = [7i16; 256];
    assert_eq!(quantize(&mut coefficients, 64), Err(CodecError::InvalidInput));
    assert_eq!(dequantize(&mut coefficients, 64), Err(CodecError::InvalidInput));
    assert_eq!(coefficients, [7i16; 256]);
}

#[test]
fn coefficients_that_leave_their_range_are_corrupt() {
    let mut coefficients = [0i16; 256];
    coefficients[9] = 700;
    assert_eq!(dequantize(&mut coefficients, 1), Err(CodecError::CorruptStream));
    assert_eq!(coefficients[9], 700);
    coefficients[9] = 668;
    assert_eq!(dequantize(&mut coefficients, 1), Ok(()));
    assert_eq!(coefficients[9], 32732);
}
