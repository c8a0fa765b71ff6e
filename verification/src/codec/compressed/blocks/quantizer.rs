//! Scalar quantization of transform coefficients: the first coefficient of
//! a block by one step size, the others by another.

use vstd::prelude::*;
use crate::codec::CodecError;

verus! {

/// The largest quantization parameter.
pub const MAX_QPARAM: u8 = 63;

/// A transform coefficient, rounded.
pub type QuantCoefficient = i16;

/// Whether a step size is defined for this parameter, adjusted by
/// `delta_q`, and this bit depth.
pub open spec fn quant_defined(qindex: u8, delta_q: i8, bit_depth: usize) -> bool {
    &&& 0 <= qindex + delta_q <= MAX_QPARAM
    &&& bit_depth == 8 || bit_depth == 10 || bit_depth == 12
}

/// The step size of the first coefficient. It is 1 at parameter 0, where
/// nothing is lost, and grows by 2 with each step of the parameter at a bit
/// depth of 8, four times as fast at 10 bits, sixteen times as fast at 12.
pub open spec fn spec_dc_q(qindex: u8, delta_q: i8, bit_depth: usize) -> int {
    if bit_depth == 8 {
        1 + 2 * (qindex + delta_q)
    } else if bit_depth == 10 {
        1 + 8 * (qindex + delta_q)
    } else {
        1 + 32 * (qindex + delta_q)
    }
}

/// The step size of the other coefficients. It is 1 at parameter 0 and
/// grows half again as fast as that of the first coefficient.
pub open spec fn spec_ac_q(qindex: u8, delta_q: i8, bit_depth: usize) -> int {
    if bit_depth == 8 {
        1 + 3 * (qindex + delta_q)
    } else if bit_depth == 10 {
        1 + 12 * (qindex + delta_q)
    } else {
        1 + 48 * (qindex + delta_q)
    }
}

/// The step sizes do not shrink when the parameter grows, and they are
/// never below 1.
pub proof fn lemma_quant_monotone(low: u8, high: u8, bit_depth: usize)
    requires
        low <= high <= MAX_QPARAM,
    ensures
        1 <= spec_dc_q(low, 0, bit_depth) <= spec_dc_q(high, 0, bit_depth) <= 2017,
        1 <= spec_ac_q(low, 0, bit_depth) <= spec_ac_q(high, 0, bit_depth) <= 3025,
        spec_dc_q(0, 0, bit_depth) == 1,
        spec_ac_q(0, 0, bit_depth) == 1,
{
}

/// The step size of the first coefficient of a block. A parameter that,
/// adjusted by `delta_q`, leaves the range from 0 to 63, and a bit depth
/// other than 8, 10 or 12, are refused.
pub fn dc_q(qindex: u8, delta_q: i8, bit_depth: usize) -> (step: Result<i16, CodecError>)
    ensures
        match step {
            Ok(q) => quant_defined(qindex, delta_q, bit_depth) && q == spec_dc_q(
                qindex,
                delta_q,
                bit_depth,
            ),
            Err(e) => e == CodecError::InvalidInput && !quant_defined(qindex, delta_q, bit_depth),
        },
{
    let q: i16 = qindex as i16 + delta_q as i16;
    if q < 0 || q > 63 || !(bit_depth == 8 || bit_depth == 10 || bit_depth == 12) {
        return Err(CodecError::InvalidInput);
    }
    if bit_depth == 8 {
        Ok(1 + 2 * q)
    } else if bit_depth == 10 {
        Ok(1 + 8 * q)
    } else {
        Ok(1 + 32 * q)
    }
}

/// The step size of the coefficients of a block after the first. A
/// parameter that, adjusted by `delta_q`, leaves the range from 0 to 63,
/// and a bit depth other than 8, 10 or 12, are refused.
pub fn ac_q(qindex: u8, delta_q: i8, bit_depth: usize) -> (step: Result<i16, CodecError>)
    ensures
        match step {
            Ok(q) => quant_defined(qindex, delta_q, bit_depth) && q == spec_ac_q(
                qindex,
                delta_q,
                bit_depth,
            ),
            Err(e) => e == CodecError::InvalidInput && !quant_defined(qindex, delta_q, bit_depth),
        },
{
    let q: i16 = qindex as i16 + delta_q as i16;
    if q < 0 || q > 63 || !(bit_depth == 8 || bit_depth == 10 || bit_depth == 12) {
        return Err(CodecError::InvalidInput);
    }
    if bit_depth == 8 {
        Ok(1 + 3 * q)
    } else if bit_depth == 10 {
        Ok(1 + 12 * q)
    } else {
        Ok(1 + 48 * q)
    }
}

/// `x` divided by `step`, rounded towards zero.
pub open spec fn quantized(x: int, step: int) -> int {
    if x >= 0 {
        x / step
    } else {
        -((-x) / step)
    }
}

/// The step size that belongs to the coefficient at index `i` of a block.
pub open spec fn step_at(i: int, qparam: u8) -> int {
    if i == 0 {
        spec_dc_q(qparam, 0, 12)
    } else {
        spec_ac_q(qparam, 0, 12)
    }
}

/// Quantizing and then scaling back misses a coefficient by less than one
/// step, towards zero, and what comes back fits a coefficient again.
pub proof fn lemma_quantization_error(x: i16, step: int)
    requires
        step >= 1,
    ensures
        -32768 <= quantized(x as int, step) * step <= 32767,
        x >= 0 ==> x - step < quantized(x as int, step) * step <= x,
        x < 0 ==> x <= quantized(x as int, step) * step < x + step,
        -32768 <= quantized(x as int, step) <= 32767,
{
    let magnitude: int = if x >= 0 {
        x as int
    } else {
        -(x as int)
    };
    vstd::arithmetic::div_mod::lemma_fundamental_div_mod(magnitude, step);
    vstd::arithmetic::div_mod::lemma_mod_bound(magnitude, step);
    vstd::arithmetic::div_mod::lemma_div_pos_is_pos(magnitude, step);
    let dividend = magnitude / step;
    assert(step * dividend == dividend * step) by (nonlinear_arith);
    assert(dividend <= dividend * step) by (nonlinear_arith)
        requires
            dividend >= 0,
            step >= 1,
    ;
    assert((-dividend) * step == -(dividend * step)) by (nonlinear_arith);
}

fn divide_towards_zero(x: i16, step: i16) -> (quotient: i16)
    requires
        step >= 1,
    ensures
        quotient == quantized(x as int, step as int),
{
    proof {
        lemma_quantization_error(x, step as int);
    }
    if x >= 0 {
        x / step
    } else {
        let magnitude: i32 = -(x as i32);
        (-(magnitude / (step as i32))) as i16
    }
}

/// Divides the first coefficient of a block by the step size for first
/// coefficients and every other by the step size for the others, at a bit
/// depth of 12, rounding towards zero. A parameter above 63 is refused, and
/// the coefficients stay as they are.
pub fn quantize(coefficients: &mut [QuantCoefficient; 256], qparam: u8) -> (result: Result<
    (),
    CodecError,
>)
    ensures
        match result {
            Ok(_) => {
                &&& qparam <= MAX_QPARAM
                &&& forall|i: int|
                    0 <= i < 256 ==> #[trigger] final(coefficients)@[i] == quantized(
                        old(coefficients)@[i] as int,
                        step_at(i, qparam),
                    )
            },
            Err(e) => {
                &&& e == CodecError::InvalidInput
                &&& qparam > MAX_QPARAM
                &&& final(coefficients)@ == old(coefficients)@
            },
        },
{
    let dc_quant = dc_q(qparam, 0, 12)?;
    let ac_quant = ac_q(qparam, 0, 12)?;
    let ghost before = coefficients@;
    let mut i: usize = 0;
    while i < 256
        invariant
            i <= 256,
            qparam <= MAX_QPARAM,
            dc_quant == spec_dc_q(qparam, 0, 12),
            ac_quant == spec_ac_q(qparam, 0, 12),
            before == old(coefficients)@,
            forall|j: int|
                0 <= j < i ==> #[trigger] coefficients@[j] == quantized(
                    before[j] as int,
                    step_at(j, qparam),
                ),
            forall|j: int| i <= j < 256 ==> #[trigger] coefficients@[j] == before[j],
        decreases 256 - i,
    {
        let step = if i == 0 {
            dc_quant
        } else {
            ac_quant
        };
        let value = divide_towards_zero(coefficients[i], step);
        coefficients[i] = value;
        i += 1;
    }
    Ok(())
}

/// Whether each coefficient, scaled back by its step size, fits a
/// coefficient again.
pub open spec fn scales_back(coefficients: Seq<QuantCoefficient>, qparam: u8) -> bool {
    forall|i: int|
        0 <= i < 256 ==> -32768 <= #[trigger] coefficients[i] * step_at(i, qparam) <= 32767
}

/// Multiplies the first coefficient of a block by the step size for first
/// coefficients and every other by the step size for the others, at a bit
/// depth of 12. A parameter above 63 is refused; coefficients of which one
/// would leave its range show a corrupt block. In both cases the
/// coefficients stay as they are.
pub fn dequantize(coefficients: &mut [QuantCoefficient; 256], qparam: u8) -> (result: Result<
    (),
    CodecError,
>)
    ensures
        match result {
            Ok(_) => {
                &&& qparam <= MAX_QPARAM
                &&& scales_back(old(coefficients)@, qparam)
                &&& forall|i: int|
                    0 <= i < 256 ==> #[trigger] final(coefficients)@[i] == old(coefficients)@[i]
                        * step_at(i, qparam)
            },
            Err(e) => {
                &&& final(coefficients)@ == old(coefficients)@
                &&& if qparam > MAX_QPARAM {
                    e == CodecError::InvalidInput
                } else {
                    e == CodecError::CorruptStream && !scales_back(old(coefficients)@, qparam)
                }
            },
        },
{
    let dc_quant = dc_q(qparam, 0, 12)?;
    let ac_quant = ac_q(qparam, 0, 12)?;
    let mut scaled: [QuantCoefficient; 256] = [0;256];
    let mut i: usize = 0;
    while i < 256
        invariant
            i <= 256,
            qparam <= MAX_QPARAM,
            dc_quant == spec_dc_q(qparam, 0, 12),
            ac_quant == spec_ac_q(qparam, 0, 12),
            coefficients@ == old(coefficients)@,
            forall|j: int|
                0 <= j < i ==> -32768 <= #[trigger] coefficients@[j] * step_at(j, qparam) <= 32767,
            forall|j: int|
                0 <= j < i ==> #[trigger] scaled@[j] == coefficients@[j] * step_at(j, qparam),
        decreases 256 - i,
    {
        let step = if i == 0 {
            dc_quant
        } else {
            ac_quant
        };
        assert(-32768 * 3025 <= coefficients@[i as int] * step <= 32767 * 3025) by (nonlinear_arith)
            requires
                1 <= step <= 3025,
                -32768 <= coefficients@[i as int] <= 32767,
        ;
        let product: i32 = coefficients[i] as i32 * step as i32;
        if product < -32768 || product > 32767 {
            assert(!(-32768 <= coefficients@[i as int] * step_at(i as int, qparam) <= 32767));
            return Err(CodecError::CorruptStream);
        }
        scaled[i] = product as i16;
        i += 1;
    }
    *coefficients = scaled;
    Ok(())
}

} // verus!
