//! A block that is coded against the blocks before it, and the coding of
//! time residuals that every block shares.

use vstd::prelude::*;
use crate::codec::compressed::adu::{
    lemma_after_prefix, lemma_append_assoc, lemma_piece_agrees, lemma_u8_determined,
    lemma_values_agree, live, read_context, read_failed, read_u8, read_value, reads_on, u8_symbols,
    write_context, write_u8, write_value, writes_on,
};
use crate::codec::compressed::adu::intrablock::{
    check_d_residuals, compress_d_residuals, d_residuals_symbols, d_residuals_valid, d_symbols,
    decompress_d_residuals, lemma_d_residuals_determined, lemma_d_symbols_prefix,
    lemma_d_symbols_unique,
};
use crate::codec::compressed::blocks::{DResidual, D_ENCODE_NO_EVENT};
use crate::codec::compressed::stream::{
    CompressedInput, CompressedOutput, DT_CONTEXT, D_CONTEXT, DecoderPoint, MAX_DELTA_T,
    U8_GENERAL_CONTEXT, lemma_follows_split,
};
use crate::codec::compressed::fenwick::context_switching::Symbol;
use crate::codec::CodecError;
use crate::DeltaT;

verus! {

/// A time residual as a block holds it.
pub type DeltaTResidualSmall = i16;

/// The value that stands for the time residual `r` in a stream: residuals
/// from `-delta_t_max` to `delta_t_max` are counted from 0.
pub open spec fn spec_dt_resid_offset(r: int, delta_t_max: int) -> int {
    r + delta_t_max
}

/// The time residual that the value `symbol` stands for.
pub open spec fn spec_dt_resid_offset_inverse(symbol: int, delta_t_max: int) -> int {
    symbol - delta_t_max
}

/// Taking the value of a time residual and then the residual of that value
/// gives the residual back, and the value lies in the alphabet.
pub proof fn lemma_dt_resid_offset_inverts(r: int, delta_t_max: int)
    requires
        -delta_t_max <= r <= delta_t_max,
    ensures
        0 <= spec_dt_resid_offset(r, delta_t_max) <= 2 * delta_t_max,
        spec_dt_resid_offset_inverse(spec_dt_resid_offset(r, delta_t_max), delta_t_max) == r,
{
}

/// The value that stands for the time residual `dt_resid` in a stream. A
/// residual beyond `delta_t_max`, in either direction, has no value, and
/// no residual has one under a `delta_t_max` for which there is no table.
pub fn dt_resid_offset_i16(dt_resid: DeltaTResidualSmall, delta_t_max: DeltaT) -> (result: Result<
    usize,
    CodecError,
>)
    ensures
        match result {
            Ok(symbol) => {
                &&& delta_t_max <= MAX_DELTA_T
                &&& -delta_t_max <= dt_resid <= delta_t_max
                &&& symbol == spec_dt_resid_offset(dt_resid as int, delta_t_max as int)
            },
            Err(e) => {
                &&& e == CodecError::InvalidInput
                &&& delta_t_max > MAX_DELTA_T || !(-delta_t_max <= dt_resid <= delta_t_max)
            },
        },
{
    let offset: i64 = dt_resid as i64 + delta_t_max as i64;
    if delta_t_max > MAX_DELTA_T || offset < 0 || offset > 2 * (delta_t_max as i64) {
        Err(CodecError::InvalidInput)
    } else {
        Ok(offset as usize)
    }
}

/// The time residual that the value `symbol` stands for. A value outside
/// the alphabet, and one whose residual does not fit a block, show a
/// corrupt stream.
pub fn dt_resid_offset_i16_inverse(symbol: usize, delta_t_max: DeltaT) -> (result: Result<
    DeltaTResidualSmall,
    CodecError,
>)
    ensures
        match result {
            Ok(dt_resid) => {
                &&& symbol <= 2 * delta_t_max
                &&& dt_resid == spec_dt_resid_offset_inverse(symbol as int, delta_t_max as int)
            },
            Err(e) => {
                &&& e == CodecError::CorruptStream
                &&& symbol > 2 * delta_t_max || !(-32768 <= symbol - delta_t_max <= 32767)
            },
        },
{
    if symbol as u64 > 2 * (delta_t_max as u64) {
        return Err(CodecError::CorruptStream);
    }
    let dt_resid: i64 = symbol as i64 - delta_t_max as i64;
    if dt_resid < -32768 || dt_resid > 32767 {
        Err(CodecError::CorruptStream)
    } else {
        Ok(dt_resid as DeltaTResidualSmall)
    }
}

/// Whether the time residuals of a block can be written: each one that
/// belongs to an event lies within `delta_t_max` of zero.
pub open spec fn dt_residuals_valid(
    d: Seq<DResidual>,
    t: Seq<DeltaTResidualSmall>,
    delta_t_max: DeltaT,
) -> bool {
    forall|i: int|
        0 <= i < 256 && d[i] != D_ENCODE_NO_EVENT ==> -delta_t_max <= #[trigger] t[i] <= delta_t_max
}

/// Whether the time residuals of a block are zero wherever there is no
/// event. Only such residuals come out of a stream again as they went in:
/// the residual of a pixel without an event is not written.
pub open spec fn dt_residuals_canonical(d: Seq<DResidual>, t: Seq<DeltaTResidualSmall>) -> bool {
    forall|i: int| 0 <= i < 256 && d[i] == D_ENCODE_NO_EVENT ==> #[trigger] t[i] == 0
}

/// Whether both kinds of residuals of a block can be written.
pub open spec fn residuals_valid(
    d: Seq<DResidual>,
    t: Seq<DeltaTResidualSmall>,
    delta_t_max: DeltaT,
) -> bool {
    d_residuals_valid(d) && dt_residuals_valid(d, t, delta_t_max)
}

/// The time residuals of the first `upto` pixels as they are written:
/// those of pixels without an event are left out.
pub open spec fn dt_symbols(
    d: Seq<DResidual>,
    t: Seq<DeltaTResidualSmall>,
    delta_t_max: DeltaT,
    upto: int,
) -> Seq<Symbol>
    decreases upto,
{
    if upto <= 0 {
        Seq::empty()
    } else if d[upto - 1] != D_ENCODE_NO_EVENT {
        dt_symbols(d, t, delta_t_max, upto - 1).push(
            Symbol::Value((t[upto - 1] + delta_t_max) as usize),
        )
    } else {
        dt_symbols(d, t, delta_t_max, upto - 1)
    }
}

/// The number of events among the first `upto` pixels.
pub open spec fn event_count(d: Seq<DResidual>, upto: int) -> int
    decreases upto,
{
    if upto <= 0 {
        0
    } else {
        event_count(d, upto - 1) + if d[upto - 1] != D_ENCODE_NO_EVENT {
            1int
        } else {
            0int
        }
    }
}

/// One value is written for each event, and the residuals from `upto` on
/// have no part in what is written.
pub proof fn lemma_dt_symbols_prefix(
    d: Seq<DResidual>,
    a: Seq<DeltaTResidualSmall>,
    b: Seq<DeltaTResidualSmall>,
    delta_t_max: DeltaT,
    upto: int,
)
    requires
        0 <= upto,
        forall|i: int| 0 <= i < upto && d[i] != D_ENCODE_NO_EVENT ==> a[i] == b[i],
    ensures
        dt_symbols(d, a, delta_t_max, upto) == dt_symbols(d, b, delta_t_max, upto),
        dt_symbols(d, a, delta_t_max, upto).len() == event_count(d, upto),
        0 <= event_count(d, upto) <= upto,
    decreases upto,
{
    if upto > 0 {
        lemma_dt_symbols_prefix(d, a, b, delta_t_max, upto - 1);
    }
}

proof fn lemma_dt_symbols_grow(
    d: Seq<DResidual>,
    t: Seq<DeltaTResidualSmall>,
    delta_t_max: DeltaT,
    upto: int,
    whole: int,
)
    requires
        0 <= upto <= whole,
    ensures
        dt_symbols(d, t, delta_t_max, upto).len() <= dt_symbols(d, t, delta_t_max, whole).len(),
        forall|k: int|
            0 <= k < dt_symbols(d, t, delta_t_max, upto).len() ==> dt_symbols(
                d,
                t,
                delta_t_max,
                whole,
            )[k] == dt_symbols(d, t, delta_t_max, upto)[k],
    decreases whole - upto,
{
    if upto < whole {
        lemma_dt_symbols_grow(d, t, delta_t_max, upto, whole - 1);
    }
}

/// Time residuals of the same events that are written alike are equal
/// wherever there is an event.
pub proof fn lemma_dt_symbols_unique(
    d: Seq<DResidual>,
    a: Seq<DeltaTResidualSmall>,
    b: Seq<DeltaTResidualSmall>,
    delta_t_max: DeltaT,
    rest_a: Seq<Symbol>,
    rest_b: Seq<Symbol>,
)
    requires
        delta_t_max <= MAX_DELTA_T,
        dt_residuals_valid(d, a, delta_t_max),
        dt_residuals_valid(d, b, delta_t_max),
        dt_symbols(d, a, delta_t_max, 256) + rest_a == dt_symbols(d, b, delta_t_max, 256) + rest_b,
    ensures
        forall|i: int| 0 <= i < 256 && d[i] != D_ENCODE_NO_EVENT ==> a[i] == b[i],
        rest_a == rest_b,
{
    let whole_a = dt_symbols(d, a, delta_t_max, 256) + rest_a;
    let whole_b = dt_symbols(d, b, delta_t_max, 256) + rest_b;
    lemma_dt_symbols_prefix(d, a, a, delta_t_max, 256);
    lemma_dt_symbols_prefix(d, b, b, delta_t_max, 256);
    let n = event_count(d, 256);
    assert forall|i: int| 0 <= i < 256 && d[i] != D_ENCODE_NO_EVENT implies a[i] == b[i] by {
        lemma_dt_symbols_prefix(d, a, a, delta_t_max, i);
        lemma_dt_symbols_prefix(d, b, b, delta_t_max, i);
        lemma_dt_symbols_prefix(d, a, a, delta_t_max, i + 1);
        lemma_dt_symbols_prefix(d, b, b, delta_t_max, i + 1);
        lemma_dt_symbols_grow(d, a, delta_t_max, i + 1, 256);
        lemma_dt_symbols_grow(d, b, delta_t_max, i + 1, 256);
        let k = event_count(d, i);
        assert(dt_symbols(d, a, delta_t_max, i + 1) == dt_symbols(d, a, delta_t_max, i).push(
            Symbol::Value((a[i] + delta_t_max) as usize),
        ));
        assert(dt_symbols(d, b, delta_t_max, i + 1) == dt_symbols(d, b, delta_t_max, i).push(
            Symbol::Value((b[i] + delta_t_max) as usize),
        ));
        assert(dt_symbols(d, a, delta_t_max, i + 1)[k] == Symbol::Value(
            (a[i] + delta_t_max) as usize,
        ));
        assert(dt_symbols(d, b, delta_t_max, i + 1)[k] == Symbol::Value(
            (b[i] + delta_t_max) as usize,
        ));
        assert(whole_a[k] == dt_symbols(d, a, delta_t_max, 256)[k]);
        assert(whole_b[k] == dt_symbols(d, b, delta_t_max, 256)[k]);
        assert(-delta_t_max <= a[i] <= delta_t_max);
        assert(-delta_t_max <= b[i] <= delta_t_max);
    }
    assert(rest_a =~= whole_a.skip(n));
    assert(rest_b =~= whole_b.skip(n));
}

/// The time residuals of a block as they are written: the switch to
/// their context, and one residual for each pixel that has an event.
pub open spec fn dt_residuals_symbols(
    d: Seq<DResidual>,
    t: Seq<DeltaTResidualSmall>,
    delta_t_max: DeltaT,
) -> Seq<Symbol> {
    seq![Symbol::Context(DT_CONTEXT)] + dt_symbols(d, t, delta_t_max, 256)
}

/// Whether two runs of time residuals are the same at every one of the
/// first `upto` pixels that has an event.
pub open spec fn same_at_events(
    d: Seq<DResidual>,
    a: Seq<DeltaTResidualSmall>,
    b: Seq<DeltaTResidualSmall>,
    upto: int,
) -> bool {
    forall|i: int| 0 <= i < upto && d[i] != D_ENCODE_NO_EVENT ==> #[trigger] a[i] == b[i]
}

/// What is left of the written time residuals after those of the first
/// `i` pixels, followed by `rest`, begins with the residual of pixel `i`
/// where that pixel has an event, and is what is left after pixel `i`
/// where it has none.
proof fn lemma_dt_symbols_next(
    d: Seq<DResidual>,
    t: Seq<DeltaTResidualSmall>,
    delta_t_max: DeltaT,
    i: int,
    rest: Seq<Symbol>,
)
    requires
        0 <= i < 256,
    ensures
        0 <= event_count(d, i) <= event_count(d, i + 1) <= dt_symbols(d, t, delta_t_max, 256).len(),
        d[i] != D_ENCODE_NO_EVENT ==> event_count(d, i + 1) == event_count(d, i) + 1 && dt_symbols(
            d,
            t,
            delta_t_max,
            256,
        ).skip(event_count(d, i)) + rest == seq![
            Symbol::Value((t[i] + delta_t_max) as usize),
        ] + (dt_symbols(d, t, delta_t_max, 256).skip(event_count(d, i + 1)) + rest),
        d[i] == D_ENCODE_NO_EVENT ==> event_count(d, i + 1) == event_count(d, i),
{
    let whole = dt_symbols(d, t, delta_t_max, 256);
    lemma_dt_symbols_prefix(d, t, t, delta_t_max, i);
    lemma_dt_symbols_prefix(d, t, t, delta_t_max, i + 1);
    lemma_dt_symbols_prefix(d, t, t, delta_t_max, 256);
    lemma_dt_symbols_grow(d, t, delta_t_max, i + 1, 256);
    if d[i] != D_ENCODE_NO_EVENT {
        let k = event_count(d, i);
        assert(dt_symbols(d, t, delta_t_max, i + 1)[k] == Symbol::Value(
            (t[i] + delta_t_max) as usize,
        ));
        assert(whole[k] == dt_symbols(d, t, delta_t_max, i + 1)[k]);
        assert(whole.skip(k) + rest =~= seq![Symbol::Value((t[i] + delta_t_max) as usize)] + (
        whole.skip(k + 1) + rest));
    }
}

/// Whether the time residuals of a block can be written.
pub fn check_dt_residuals(
    dt_residuals: &[DeltaTResidualSmall; 256],
    d_residuals: &[DResidual; 256],
    delta_t_max: DeltaT,
) -> (valid: bool)
    ensures
        valid == dt_residuals_valid(d_residuals@, dt_residuals@, delta_t_max),
{
    let mut i: usize = 0;
    while i < 256
        invariant
            i <= 256,
            forall|j: int|
                0 <= j < i && d_residuals@[j] != D_ENCODE_NO_EVENT ==> -delta_t_max
                    <= #[trigger] dt_residuals@[j] <= delta_t_max,
        decreases 256 - i,
    {
        if d_residuals[i] != D_ENCODE_NO_EVENT {
            let residual: i64 = dt_residuals[i] as i64;
            let bound: i64 = delta_t_max as i64;
            if residual < -bound || residual > bound {
                return false;
            }
        }
        i += 1;
    }
    true
}

/// Writes the time residuals of a block under their context, one for
/// each pixel that has an event. A residual that cannot be written is
/// refused before anything is written.
pub fn compress_dt_residuals(
    dt_residuals: &[DeltaTResidualSmall; 256],
    d_residuals: &[DResidual; 256],
    output: &mut CompressedOutput,
) -> (result: Result<(), CodecError>)
    requires
        old(output).wf(),
    ensures
        writes_on(*old(output), *final(output)),
        match result {
            Ok(_) => {
                &&& dt_residuals_valid(d_residuals@, dt_residuals@, old(output).delta_t_max())
                &&& final(output).context() == DT_CONTEXT
                &&& final(output).symbols() == old(output).symbols() + seq![
                    Symbol::Context(DT_CONTEXT),
                ] + dt_symbols(d_residuals@, dt_residuals@, old(output).delta_t_max(), 256)
            },
            Err(e) => {
                &&& e == CodecError::InvalidInput
                &&& !dt_residuals_valid(d_residuals@, dt_residuals@, old(output).delta_t_max())
                &&& final(output).symbols() == old(output).symbols()
                &&& final(output).context() == old(output).context()
            },
        },
{
    let delta_t_max = output.dtm();
    if !check_dt_residuals(dt_residuals, d_residuals, delta_t_max) {
        return Err(CodecError::InvalidInput);
    }
    write_context(output, DT_CONTEXT);
    let ghost start = output.symbols();
    let mut i: usize = 0;
    while i < 256
        invariant
            i <= 256,
            delta_t_max == old(output).delta_t_max(),
            dt_residuals_valid(d_residuals@, dt_residuals@, delta_t_max),
            writes_on(*old(output), *output),
            output.context() == DT_CONTEXT,
            output.symbols() == start + dt_symbols(
                d_residuals@,
                dt_residuals@,
                delta_t_max,
                i as int,
            ),
        decreases 256 - i,
    {
        if d_residuals[i] != D_ENCODE_NO_EVENT {
            assert(-delta_t_max <= dt_residuals@[i as int] <= delta_t_max);
            let symbol: usize = (dt_residuals[i] as i64 + delta_t_max as i64) as usize;
            write_value(output, symbol);
        }
        assert(output.symbols() =~= start + dt_symbols(
            d_residuals@,
            dt_residuals@,
            delta_t_max,
            i + 1,
        ));
        i += 1;
    }
    assert(output.symbols() =~= old(output).symbols() + seq![Symbol::Context(DT_CONTEXT)]
        + dt_symbols(d_residuals@, dt_residuals@, delta_t_max, 256));
    Ok(())
}

/// Reads the time residuals of a block under their context, one for each
/// pixel that has an event according to `d_residuals`, in the order of
/// the pixels. The residuals of the other pixels stay as they are,
/// whatever comes. Where the decoder gives what is written for time
/// residuals of these events, those are read.
pub fn decompress_dt_residuals(
    dt_residuals: &mut [DeltaTResidualSmall; 256],
    d_residuals: &[DResidual; 256],
    input: &mut CompressedInput,
) -> (result: Result<(), CodecError>)
    requires
        old(input).wf(),
    ensures
        reads_on(*old(input), *final(input)),
        forall|i: int|
            0 <= i < 256 && d_residuals@[i] == D_ENCODE_NO_EVENT ==> final(dt_residuals)@[i] == old(
                dt_residuals,
            )@[i],
        match result {
            Ok(_) => {
                &&& dt_residuals_valid(d_residuals@, final(dt_residuals)@, old(input).delta_t_max())
                &&& final(input).context() == DT_CONTEXT
                &&& final(input).spec_finished() == old(input).spec_finished()
                &&& final(input).spec_failed() == old(input).spec_failed()
                &&& final(input).delivered() == old(input).delivered() + seq![
                    Symbol::Context(DT_CONTEXT),
                ] + dt_symbols(d_residuals@, final(dt_residuals)@, old(input).delta_t_max(), 256)
            },
            Err(e) => read_failed(*final(input), e),
        },
        live(*old(input)) ==> forall|t: Seq<DeltaTResidualSmall>, rest: Seq<Symbol>|
            dt_residuals_valid(d_residuals@, t, old(input).delta_t_max()) && #[trigger] old(
                input,
            ).point().follows(
                dt_residuals_symbols(d_residuals@, t, old(input).delta_t_max()) + rest,
            ) ==> result is Ok && same_at_events(d_residuals@, final(dt_residuals)@, t, 256)
                && final(input).point().follows(rest),
        live(*old(input)) && (exists|t: Seq<DeltaTResidualSmall>|
            dt_residuals_valid(d_residuals@, t, old(input).delta_t_max()) && #[trigger] old(
                input,
            ).point().follows(
                dt_residuals_symbols(d_residuals@, t, old(input).delta_t_max()),
            )) ==> result is Ok,
{
    let delta_t_max = input.dtm();
    let ghost origin = input.point();
    let ghost was_live = live(*input);
    let ghost d = d_residuals@;
    proof {
        assert forall|t: Seq<DeltaTResidualSmall>| #[trigger]
            origin.follows(dt_residuals_symbols(d, t, delta_t_max)) implies origin.follows(
            dt_residuals_symbols(d, t, delta_t_max) + Seq::<Symbol>::empty(),
        ) by {
            assert(dt_residuals_symbols(d, t, delta_t_max) + Seq::<Symbol>::empty()
                =~= dt_residuals_symbols(d, t, delta_t_max));
        }
    }
    proof {
        assert forall|t: Seq<DeltaTResidualSmall>, rest: Seq<Symbol>| #[trigger]
            origin.follows(dt_residuals_symbols(d, t, delta_t_max) + rest) implies origin.follows(
            seq![Symbol::Context(DT_CONTEXT)] + (dt_symbols(d, t, delta_t_max, 256).skip(
                event_count(d, 0),
            ) + rest),
        ) by {
            assert(dt_residuals_symbols(d, t, delta_t_max) + rest =~= seq![
                Symbol::Context(DT_CONTEXT),
            ] + (dt_symbols(d, t, delta_t_max, 256).skip(event_count(d, 0)) + rest));
        }
    }
    read_context(input, DT_CONTEXT);
    let ghost start = input.delivered();
    let ghost initial = dt_residuals@;
    let mut i: usize = 0;
    while i < 256
        invariant
            i <= 256,
            d == d_residuals@,
            delta_t_max == old(input).delta_t_max(),
            delta_t_max <= MAX_DELTA_T,
            reads_on(*old(input), *input),
            input.context() == DT_CONTEXT,
            input.spec_finished() == old(input).spec_finished(),
            input.spec_failed() == old(input).spec_failed(),
            forall|j: int|
                0 <= j < i && d_residuals@[j] != D_ENCODE_NO_EVENT ==> -delta_t_max
                    <= #[trigger] dt_residuals@[j] <= delta_t_max,
            initial == old(dt_residuals)@,
            forall|j: int|
                0 <= j < 256 && (j >= i || d_residuals@[j] == D_ENCODE_NO_EVENT)
                    ==> #[trigger] dt_residuals@[j] == initial[j],
            input.delivered() == start + dt_symbols(
                d_residuals@,
                dt_residuals@,
                delta_t_max,
                i as int,
            ),
            was_live == live(*old(input)),
            origin == old(input).point(),
            forall|t: Seq<DeltaTResidualSmall>| #[trigger]
                origin.follows(dt_residuals_symbols(d, t, delta_t_max)) ==> origin.follows(
                    dt_residuals_symbols(d, t, delta_t_max) + Seq::<Symbol>::empty(),
                ),
            was_live ==> forall|t: Seq<DeltaTResidualSmall>, rest: Seq<Symbol>|
                dt_residuals_valid(d, t, delta_t_max) && #[trigger] origin.follows(
                    dt_residuals_symbols(d, t, delta_t_max) + rest,
                ) ==> same_at_events(d, dt_residuals@, t, i as int) && input.point().follows(
                    dt_symbols(d, t, delta_t_max, 256).skip(event_count(d, i as int)) + rest,
                ),
        decreases 256 - i,
    {
        let ghost before = dt_residuals@;
        let ghost here = input.point();
        if d_residuals[i] != D_ENCODE_NO_EVENT {
            proof {
                if was_live {
                    assert forall|t: Seq<DeltaTResidualSmall>, rest: Seq<Symbol>|
                        dt_residuals_valid(d, t, delta_t_max) && #[trigger] origin.follows(
                            dt_residuals_symbols(d, t, delta_t_max) + rest,
                        ) implies here.follows(
                        seq![Symbol::Value((t[i as int] + delta_t_max) as usize)] + (dt_symbols(
                            d,
                            t,
                            delta_t_max,
                            256,
                        ).skip(event_count(d, i + 1)) + rest),
                    ) by {
                        lemma_dt_symbols_next(d, t, delta_t_max, i as int, rest);
                    }
                }
            }
            let symbol = read_value(input)?;
            let ghost there = input.point();
            proof {
                if was_live {
                    assert forall|t: Seq<DeltaTResidualSmall>, rest: Seq<Symbol>|
                        dt_residuals_valid(d, t, delta_t_max) && #[trigger] origin.follows(
                            dt_residuals_symbols(d, t, delta_t_max) + rest,
                        ) implies symbol == t[i as int] + delta_t_max && there.follows(
                        dt_symbols(d, t, delta_t_max, 256).skip(event_count(d, i + 1)) + rest,
                    ) by {
                        assert(here.follows(
                            seq![Symbol::Value((t[i as int] + delta_t_max) as usize)] + (
                            dt_symbols(d, t, delta_t_max, 256).skip(event_count(d, i + 1))
                                + rest),
                        ));
                        assert(-delta_t_max <= t[i as int] <= delta_t_max);
                    }
                }
            }
            let dt_resid = dt_resid_offset_i16_inverse(symbol, delta_t_max)?;
            dt_residuals[i] = dt_resid;
            proof {
                if was_live {
                    assert forall|t: Seq<DeltaTResidualSmall>, rest: Seq<Symbol>|
                        dt_residuals_valid(d, t, delta_t_max) && #[trigger] origin.follows(
                            dt_residuals_symbols(d, t, delta_t_max) + rest,
                        ) implies same_at_events(d, dt_residuals@, t, i + 1) by {
                        assert(symbol == t[i as int] + delta_t_max);
                        assert(same_at_events(d, before, t, i as int));
                        assert forall|j: int|
                            0 <= j < i + 1 && d[j] != D_ENCODE_NO_EVENT implies #[trigger] dt_residuals@[j]
                            == t[j] by {
                            if j < i {
                                assert(before[j] == t[j]);
                            }
                        }
                    }
                }
            }
        } else {
            proof {
                if was_live {
                    assert forall|t: Seq<DeltaTResidualSmall>, rest: Seq<Symbol>|
                        dt_residuals_valid(d, t, delta_t_max) && #[trigger] origin.follows(
                            dt_residuals_symbols(d, t, delta_t_max) + rest,
                        ) implies same_at_events(d, dt_residuals@, t, i + 1) && input.point().follows(
                        dt_symbols(d, t, delta_t_max, 256).skip(event_count(d, i + 1)) + rest,
                    ) by {
                        lemma_dt_symbols_next(d, t, delta_t_max, i as int, rest);
                        assert(same_at_events(d, before, t, i as int));
                    }
                }
            }
        }
        proof {
            lemma_dt_symbols_prefix(d_residuals@, before, dt_residuals@, delta_t_max, i as int);
            assert(input.delivered() =~= start + dt_symbols(
                d_residuals@,
                dt_residuals@,
                delta_t_max,
                i + 1,
            ));
        }
        i += 1;
    }
    proof {
        assert(input.delivered() =~= old(input).delivered() + seq![Symbol::Context(DT_CONTEXT)]
            + dt_symbols(d_residuals@, dt_residuals@, delta_t_max, 256));
        if was_live {
            assert forall|t: Seq<DeltaTResidualSmall>, rest: Seq<Symbol>|
                dt_residuals_valid(d, t, delta_t_max) && #[trigger] origin.follows(
                    dt_residuals_symbols(d, t, delta_t_max) + rest,
                ) implies input.point().follows(rest) by {
                lemma_dt_symbols_prefix(d, t, t, delta_t_max, 256);
                assert(dt_symbols(d, t, delta_t_max, 256).skip(event_count(d, 256)) + rest
                    =~= rest);
            }
        }
    }
    Ok(())
}

/// A block as it stands in a stream after the first block of its cube.
#[derive(Debug, Clone, Copy, PartialEq, Eq)]
pub struct AduInterBlock {
    /// How many bits the time residuals are shifted by.
    pub shift_loss_param: u8,
    /// Prediction residuals of D between each event and the event in the previous block.
    pub d_residuals: [DResidual; 256],
    /// Prediction residuals of delta_t between each event and the event in the previous block.
    pub t_residuals: [DeltaTResidualSmall; 256],
}

impl AduInterBlock {
    /// Whether the block can be written under `delta_t_max`.
    pub open spec fn valid(&self, delta_t_max: DeltaT) -> bool {
        residuals_valid(self.d_residuals@, self.t_residuals@, delta_t_max)
    }

    /// Whether the block holds no time residual for a pixel without an event.
    pub open spec fn canonical(&self) -> bool {
        dt_residuals_canonical(self.d_residuals@, self.t_residuals@)
    }

    /// The block as it is written: the shift under the context for bytes,
    /// the D-residuals under theirs, and under theirs the time residuals of
    /// the pixels that have an event.
    pub open spec fn symbols(&self, delta_t_max: DeltaT) -> Seq<Symbol> {
        seq![Symbol::Context(U8_GENERAL_CONTEXT)] + u8_symbols(self.shift_loss_param)
            + seq![Symbol::Context(D_CONTEXT)] + d_symbols(self.d_residuals@, 256)
            + seq![Symbol::Context(DT_CONTEXT)] + dt_symbols(
            self.d_residuals@,
            self.t_residuals@,
            delta_t_max,
            256,
        )
    }

    /// A block without events.
    pub fn empty() -> (block: Self)
        ensures
            block.shift_loss_param == 0,
            forall|i: int| 0 <= i < 256 ==> block.d_residuals@[i] == D_ENCODE_NO_EVENT,
            forall|i: int| 0 <= i < 256 ==> block.t_residuals@[i] == 0,
    {
        AduInterBlock {
            shift_loss_param: 0,
            d_residuals: [D_ENCODE_NO_EVENT;256],
            t_residuals: [0;256],
        }
    }

    /// Whether the block can be written under `delta_t_max`.
    pub fn check(&self, delta_t_max: DeltaT) -> (valid: bool)
        ensures
            valid == self.valid(delta_t_max),
    {
        check_d_residuals(&self.d_residuals) && check_dt_residuals(
            &self.t_residuals,
            &self.d_residuals,
            delta_t_max,
        )
    }

    /// Writes the block. A block that cannot be written is refused before
    /// anything is written.
    pub fn compress(&self, output: &mut CompressedOutput) -> (result: Result<(), CodecError>)
        requires
            old(output).wf(),
        ensures
            writes_on(*old(output), *final(output)),
            match result {
                Ok(_) => {
                    &&& self.valid(old(output).delta_t_max())
                    &&& final(output).context() == DT_CONTEXT
                    &&& final(output).symbols() == old(output).symbols() + self.symbols(
                        old(output).delta_t_max(),
                    )
                },
                Err(e) => {
                    &&& e == CodecError::InvalidInput
                    &&& !self.valid(old(output).delta_t_max())
                    &&& final(output).symbols() == old(output).symbols()
                    &&& final(output).context() == old(output).context()
                },
            },
    {
        let delta_t_max = output.dtm();
        if !self.check(delta_t_max) {
            return Err(CodecError::InvalidInput);
        }
        write_context(output, U8_GENERAL_CONTEXT);
        // Write the shift loss parameter.
        write_u8(output, self.shift_loss_param);
        // Write the d_residuals
        match compress_d_residuals(&self.d_residuals, output) {
            Ok(_) => {},
            Err(e) => {
                return Err(e);
            },
        }
        // Write the dt_residuals
        match compress_dt_residuals(&self.t_residuals, &self.d_residuals, output) {
            Ok(_) => {},
            Err(e) => {
                return Err(e);
            },
        }
        assert(output.symbols() =~= old(output).symbols() + self.symbols(delta_t_max));
        Ok(())
    }

    /// Reads a block. What was handed out while reading is the block as it
    /// is written. Where the stream has neither ended nor failed and the
    /// decoder gives what is written for a block, that block is read.
    pub fn decompress(input: &mut CompressedInput) -> (result: Result<Self, CodecError>)
        requires
            old(input).wf(),
        ensures
            reads_on(*old(input), *final(input)),
            match result {
                Ok(block) => {
                    &&& block.valid(old(input).delta_t_max())
                    &&& block.canonical()
                    &&& final(input).context() == DT_CONTEXT
                    &&& !final(input).spec_finished()
                    &&& !final(input).spec_failed()
                    &&& final(input).delivered() == old(input).delivered() + block.symbols(
                        old(input).delta_t_max(),
                    )
                    &&& inter_block_read_from(
                        final(input).delivered().skip(old(input).delivered().len() as int),
                        old(input).delta_t_max(),
                    ) == Some(block)
                },
                Err(e) => read_failed(*final(input), e),
            },
            live(*old(input)) ==> forall|b: AduInterBlock, rest: Seq<Symbol>|
                b.valid(old(input).delta_t_max()) && b.canonical() && #[trigger] old(
                    input,
                ).point().follows(b.symbols(old(input).delta_t_max()) + rest) ==> result == Ok::<
                    AduInterBlock,
                    CodecError,
                >(b) && final(input).point().follows(rest),
            live(*old(input)) && (exists|b: AduInterBlock|
                b.valid(old(input).delta_t_max()) && b.canonical() && #[trigger] old(
                    input,
                ).point().follows(b.symbols(old(input).delta_t_max()))) ==> result is Ok,
    {
        let ghost origin = input.point();
        let ghost was_live = live(*input);
        let ghost delta_t_max = input.delta_t_max();
        proof {
            assert forall|b: AduInterBlock| #[trigger]
                origin.follows(b.symbols(delta_t_max)) implies origin.follows(
                b.symbols(delta_t_max) + Seq::<Symbol>::empty(),
            ) by {
                assert(b.symbols(delta_t_max) + Seq::<Symbol>::empty() =~= b.symbols(delta_t_max));
            }
        }
        proof {
            assert forall|b: AduInterBlock, rest: Seq<Symbol>| #[trigger]
                origin.follows(b.symbols(delta_t_max) + rest) implies origin.follows(
                seq![Symbol::Context(U8_GENERAL_CONTEXT)] + (u8_symbols(b.shift_loss_param) + (
                d_residuals_symbols(b.d_residuals@) + (dt_residuals_symbols(
                    b.d_residuals@,
                    b.t_residuals@,
                    delta_t_max,
                ) + rest))),
            ) by {
                lemma_inter_block_nested(b, delta_t_max, rest);
            }
        }
        // Initialize empty inter block
        let mut inter_block = AduInterBlock::empty();
        read_context(input, U8_GENERAL_CONTEXT);
        // Read the shift loss parameter.
        inter_block.shift_loss_param = read_u8(input)?;
        // Read the d_residuals
        decompress_d_residuals(&mut inter_block.d_residuals, input)?;
        // Read the dt_residuals
        decompress_dt_residuals(&mut inter_block.t_residuals, &inter_block.d_residuals, input)?;
        proof {
            let written = inter_block.symbols(input.delta_t_max());
            assert(input.delivered() =~= old(input).delivered() + written);
            lemma_after_prefix(old(input).delivered(), written);
            input.lemma_wf();
            lemma_inter_block_decode_inverts_encode(inter_block, input.delta_t_max());
            if was_live {
                assert forall|b: AduInterBlock, rest: Seq<Symbol>|
                    b.valid(delta_t_max) && b.canonical() && #[trigger] origin.follows(
                        b.symbols(delta_t_max) + rest,
                    ) implies inter_block == b && input.point().follows(rest) by {
                    assert(inter_block.d_residuals@ == b.d_residuals@);
                    assert(same_at_events(
                        b.d_residuals@,
                        inter_block.t_residuals@,
                        b.t_residuals@,
                        256,
                    ));
                    assert(inter_block.t_residuals@ =~= b.t_residuals@);
                    assert(inter_block.d_residuals =~= b.d_residuals);
                    assert(inter_block.t_residuals =~= b.t_residuals);
                }
            }
        }
        Ok(inter_block)
    }
}

/// What is written for a block, followed by `rest`, part by part.
pub proof fn lemma_inter_block_nested(b: AduInterBlock, delta_t_max: DeltaT, rest: Seq<Symbol>)
    ensures
        b.symbols(delta_t_max) + rest == seq![Symbol::Context(U8_GENERAL_CONTEXT)] + (u8_symbols(
            b.shift_loss_param,
        ) + (d_residuals_symbols(b.d_residuals@) + (dt_residuals_symbols(
            b.d_residuals@,
            b.t_residuals@,
            delta_t_max,
        ) + rest))),
{
    let d = d_symbols(b.d_residuals@, 256);
    let t = dt_symbols(b.d_residuals@, b.t_residuals@, delta_t_max, 256);
    let shift = u8_symbols(b.shift_loss_param);
    assert(seq![Symbol::Context(U8_GENERAL_CONTEXT)] + shift + seq![Symbol::Context(D_CONTEXT)]
        + d + seq![Symbol::Context(DT_CONTEXT)] + t + rest =~= seq![
        Symbol::Context(U8_GENERAL_CONTEXT),
    ] + (shift + ((seq![Symbol::Context(D_CONTEXT)] + d) + ((seq![Symbol::Context(DT_CONTEXT)]
        + t) + rest))));
}

/// Two blocks that can be written, hold nothing for pixels without an
/// event, and are written alike, whatever follows them, are the same block,
/// and the same follows them.
pub proof fn lemma_inter_block_unique(
    a: AduInterBlock,
    b: AduInterBlock,
    delta_t_max: DeltaT,
    rest_a: Seq<Symbol>,
    rest_b: Seq<Symbol>,
)
    requires
        delta_t_max <= MAX_DELTA_T,
        a.valid(delta_t_max),
        a.canonical(),
        b.valid(delta_t_max),
        b.canonical(),
        a.symbols(delta_t_max) + rest_a == b.symbols(delta_t_max) + rest_b,
    ensures
        a == b,
        rest_a == rest_b,
{
    let whole_a = a.symbols(delta_t_max) + rest_a;
    let whole_b = b.symbols(delta_t_max) + rest_b;
    lemma_d_symbols_prefix(a.d_residuals@, a.d_residuals@, 256);
    lemma_d_symbols_prefix(b.d_residuals@, b.d_residuals@, 256);
    assert(whole_a[1] == Symbol::Value(a.shift_loss_param as usize));
    assert(whole_b[1] == Symbol::Value(b.shift_loss_param as usize));
    let tail_a = seq![Symbol::Context(DT_CONTEXT)] + dt_symbols(
        a.d_residuals@,
        a.t_residuals@,
        delta_t_max,
        256,
    ) + rest_a;
    let tail_b = seq![Symbol::Context(DT_CONTEXT)] + dt_symbols(
        b.d_residuals@,
        b.t_residuals@,
        delta_t_max,
        256,
    ) + rest_b;
    assert(whole_a.skip(3) =~= d_symbols(a.d_residuals@, 256) + tail_a);
    assert(whole_b.skip(3) =~= d_symbols(b.d_residuals@, 256) + tail_b);
    lemma_d_symbols_unique(a.d_residuals@, b.d_residuals@, tail_a, tail_b);
    assert(a.d_residuals@ =~= b.d_residuals@);
    assert(tail_a.skip(1) =~= dt_symbols(a.d_residuals@, a.t_residuals@, delta_t_max, 256) + rest_a);
    assert(tail_b.skip(1) =~= dt_symbols(a.d_residuals@, b.t_residuals@, delta_t_max, 256) + rest_b);
    lemma_dt_symbols_unique(
        a.d_residuals@,
        a.t_residuals@,
        b.t_residuals@,
        delta_t_max,
        rest_a,
        rest_b,
    );
    assert(a.t_residuals@ =~= b.t_residuals@);
    assert(a.d_residuals =~= b.d_residuals);
    assert(a.t_residuals =~= b.t_residuals);
}

/// Whether `block` is a block that comes out of a stream and is written
/// as `symbols`.
pub open spec fn inter_block_written_as(
    block: AduInterBlock,
    symbols: Seq<Symbol>,
    delta_t_max: DeltaT,
) -> bool {
    block.valid(delta_t_max) && block.canonical() && block.symbols(delta_t_max) == symbols
}

/// The block that is written as `symbols`, if there is one.
#[verifier::opaque]
pub open spec fn inter_block_read_from(symbols: Seq<Symbol>, delta_t_max: DeltaT) -> Option<
    AduInterBlock,
> {
    if exists|block: AduInterBlock| inter_block_written_as(block, symbols, delta_t_max) {
        Some(choose|block: AduInterBlock| inter_block_written_as(block, symbols, delta_t_max))
    } else {
        None
    }
}

/// Decoding inverts encoding: what is written for a block is read back as
/// that block, if the block can be written and holds no time residual for
/// a pixel without an event.
pub proof fn lemma_inter_block_decode_inverts_encode(block: AduInterBlock, delta_t_max: DeltaT)
    requires
        delta_t_max <= MAX_DELTA_T,
        block.valid(delta_t_max),
        block.canonical(),
    ensures
        inter_block_read_from(block.symbols(delta_t_max), delta_t_max) == Some(block),
{
    reveal(inter_block_read_from);
    let symbols = block.symbols(delta_t_max);
    assert(inter_block_written_as(block, symbols, delta_t_max));
    let found = choose|b: AduInterBlock| inter_block_written_as(b, symbols, delta_t_max);
    lemma_inter_block_unique(found, block, delta_t_max, Seq::empty(), Seq::empty());
}

/// What is written for time residuals is all values.
pub proof fn lemma_dt_symbols_values(
    d: Seq<DResidual>,
    t: Seq<DeltaTResidualSmall>,
    delta_t_max: DeltaT,
    upto: int,
)
    requires
        0 <= upto,
    ensures
        crate::codec::compressed::adu::all_values(dt_symbols(d, t, delta_t_max, upto)),
        dt_symbols(d, t, delta_t_max, upto).len() == event_count(d, upto),
    decreases upto,
{
    if upto > 0 {
        lemma_dt_symbols_values(d, t, delta_t_max, upto - 1);
    }
}

/// Two runs of time residuals of the same events whose writing comes from
/// one point are the same wherever there is an event, and what follows
/// either comes from the point after it.
pub proof fn lemma_dt_residuals_determined(
    point: DecoderPoint,
    d: Seq<DResidual>,
    a: Seq<DeltaTResidualSmall>,
    rest_a: Seq<Symbol>,
    b: Seq<DeltaTResidualSmall>,
    rest_b: Seq<Symbol>,
    delta_t_max: DeltaT,
)
    requires
        delta_t_max <= MAX_DELTA_T,
        dt_residuals_valid(d, a, delta_t_max),
        dt_residuals_valid(d, b, delta_t_max),
        point.follows(dt_residuals_symbols(d, a, delta_t_max) + rest_a),
        point.follows(dt_residuals_symbols(d, b, delta_t_max) + rest_b),
    ensures
        same_at_events(d, a, b, 256),
        dt_residuals_symbols(d, a, delta_t_max) == dt_residuals_symbols(d, b, delta_t_max),
        point.after_all(dt_residuals_symbols(d, a, delta_t_max)).follows(rest_a),
        point.after_all(dt_residuals_symbols(d, a, delta_t_max)).follows(rest_b),
{
    let switch = seq![Symbol::Context(DT_CONTEXT)];
    let written_a = dt_symbols(d, a, delta_t_max, 256);
    let written_b = dt_symbols(d, b, delta_t_max, 256);
    lemma_append_assoc(switch, written_a, rest_a);
    lemma_append_assoc(switch, written_b, rest_b);
    lemma_piece_agrees(point, switch, written_a + rest_a, written_b + rest_b);
    lemma_dt_symbols_values(d, a, delta_t_max, 256);
    lemma_dt_symbols_values(d, b, delta_t_max, 256);
    lemma_values_agree(point.after_all(switch), written_a, rest_a, written_b, rest_b);
    lemma_dt_symbols_unique(d, a, b, delta_t_max, Seq::empty(), Seq::empty());
    lemma_follows_split(point, dt_residuals_symbols(d, a, delta_t_max), rest_a);
    lemma_follows_split(point, dt_residuals_symbols(d, a, delta_t_max), rest_b);
}

/// Two blocks whose writing comes from one point are the same block, and
/// what follows either comes from the point after it.
pub proof fn lemma_inter_block_determined(
    point: DecoderPoint,
    a: AduInterBlock,
    rest_a: Seq<Symbol>,
    b: AduInterBlock,
    rest_b: Seq<Symbol>,
    delta_t_max: DeltaT,
)
    requires
        delta_t_max <= MAX_DELTA_T,
        a.valid(delta_t_max),
        a.canonical(),
        b.valid(delta_t_max),
        b.canonical(),
        point.follows(a.symbols(delta_t_max) + rest_a),
        point.follows(b.symbols(delta_t_max) + rest_b),
    ensures
        a == b,
        point.after_all(a.symbols(delta_t_max)).follows(rest_a),
        point.after_all(a.symbols(delta_t_max)).follows(rest_b),
{
    lemma_inter_block_nested(a, delta_t_max, rest_a);
    lemma_inter_block_nested(b, delta_t_max, rest_b);
    let switch = seq![Symbol::Context(U8_GENERAL_CONTEXT)];
    let times_a = dt_residuals_symbols(a.d_residuals@, a.t_residuals@, delta_t_max) + rest_a;
    let times_b = dt_residuals_symbols(b.d_residuals@, b.t_residuals@, delta_t_max) + rest_b;
    let d_a = d_residuals_symbols(a.d_residuals@) + times_a;
    let d_b = d_residuals_symbols(b.d_residuals@) + times_b;
    lemma_piece_agrees(
        point,
        switch,
        u8_symbols(a.shift_loss_param) + d_a,
        u8_symbols(b.shift_loss_param) + d_b,
    );
    let step1 = point.after_all(switch);
    lemma_u8_determined(step1, a.shift_loss_param, d_a, b.shift_loss_param, d_b);
    let step2 = step1.after_all(u8_symbols(a.shift_loss_param));
    lemma_d_residuals_determined(step2, a.d_residuals@, times_a, b.d_residuals@, times_b);
    let step3 = step2.after_all(d_residuals_symbols(a.d_residuals@));
    lemma_dt_residuals_determined(
        step3,
        a.d_residuals@,
        a.t_residuals@,
        rest_a,
        b.t_residuals@,
        rest_b,
        delta_t_max,
    );
    assert(a.t_residuals@ =~= b.t_residuals@);
    assert(a.d_residuals =~= b.d_residuals);
    assert(a.t_residuals =~= b.t_residuals);
    lemma_follows_split(point, a.symbols(delta_t_max), rest_a);
    lemma_follows_split(point, a.symbols(delta_t_max), rest_b);
}

} // verus!
