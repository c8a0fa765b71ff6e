//! The first block of a cube, which is coded by itself, and the coding of
//! D-residuals that every block shares.

use vstd::prelude::*;
use crate::{AbsoluteT, D, DeltaT};
use crate::codec::compressed::adu::{
    lemma_after_prefix, lemma_append_assoc, lemma_piece_agrees, lemma_u32_determined,
    lemma_u32_symbols_injective, lemma_u8_determined, lemma_values_agree, live, read_context,
    read_failed, read_u32, read_u8, read_value, reads_on, u32_symbols, u8_symbols, write_context,
    write_u32, write_u8, write_value, writes_on,
};
use crate::codec::compressed::adu::interblock::{
    compress_dt_residuals, decompress_dt_residuals, dt_residuals_canonical, dt_residuals_symbols,
    dt_symbols, lemma_dt_residuals_determined, lemma_dt_symbols_unique, residuals_valid,
    same_at_events,
};
use crate::codec::compressed::blocks::{DResidual, D_ENCODE_NO_EVENT};
use crate::codec::compressed::stream::{
    CompressedInput, CompressedOutput, DT_CONTEXT, D_CONTEXT, DecoderPoint, U8_GENERAL_CONTEXT,
    lemma_follows_split,
};
use crate::codec::compressed::fenwick::context_switching::Symbol;
use crate::codec::CodecError;

verus! {

/// Whether a D-residual can be written: it is the difference of two
/// decimation values, or the marker for a pixel without an event.
pub open spec fn d_residual_valid(r: DResidual) -> bool {
    -255 <= r <= 256
}

/// Whether each of the 256 D-residuals can be written.
pub open spec fn d_residuals_valid(d: Seq<DResidual>) -> bool {
    forall|i: int| 0 <= i < 256 ==> d_residual_valid(#[trigger] d[i])
}

/// The value that stands for the D-residual `r` in a stream: residuals
/// from -255 on are counted from 0, and the marker for no event comes last.
pub open spec fn d_symbol(r: DResidual) -> Symbol {
    Symbol::Value((r + 255) as usize)
}

/// The first `upto` D-residuals as they are written.
pub open spec fn d_symbols(d: Seq<DResidual>, upto: int) -> Seq<Symbol>
    decreases upto,
{
    if upto <= 0 {
        Seq::empty()
    } else {
        d_symbols(d, upto - 1).push(d_symbol(d[upto - 1]))
    }
}

/// As many values are written as there are D-residuals, and the residuals
/// from `upto` on have no part in them.
pub proof fn lemma_d_symbols_prefix(a: Seq<DResidual>, b: Seq<DResidual>, upto: int)
    requires
        0 <= upto,
        forall|i: int| 0 <= i < upto ==> a[i] == b[i],
    ensures
        d_symbols(a, upto) == d_symbols(b, upto),
        d_symbols(a, upto).len() == upto,
    decreases upto,
{
    if upto > 0 {
        lemma_d_symbols_prefix(a, b, upto - 1);
    }
}

/// D-residuals that are written alike are equal.
pub proof fn lemma_d_symbols_unique(
    a: Seq<DResidual>,
    b: Seq<DResidual>,
    rest_a: Seq<Symbol>,
    rest_b: Seq<Symbol>,
)
    requires
        d_residuals_valid(a),
        d_residuals_valid(b),
        d_symbols(a, 256) + rest_a == d_symbols(b, 256) + rest_b,
    ensures
        forall|i: int| 0 <= i < 256 ==> a[i] == b[i],
        rest_a == rest_b,
{
    lemma_d_symbols_prefix(a, a, 256);
    lemma_d_symbols_prefix(b, b, 256);
    let whole_a = d_symbols(a, 256) + rest_a;
    let whole_b = d_symbols(b, 256) + rest_b;
    assert forall|i: int| 0 <= i < 256 implies a[i] == b[i] by {
        lemma_d_symbol_at(a, 256, i);
        lemma_d_symbol_at(b, 256, i);
        assert(whole_a[i] == d_symbols(a, 256)[i]);
        assert(whole_b[i] == d_symbols(b, 256)[i]);
        assert(d_residual_valid(a[i]) && d_residual_valid(b[i]));
    }
    assert(rest_a =~= whole_a.skip(256));
    assert(rest_b =~= whole_b.skip(256));
}

proof fn lemma_d_symbol_at(d: Seq<DResidual>, upto: int, i: int)
    requires
        0 <= i < upto,
    ensures
        d_symbols(d, upto).len() == upto,
        d_symbols(d, upto)[i] == d_symbol(d[i]),
    decreases upto,
{
    lemma_d_symbols_prefix(d, d, upto);
    lemma_d_symbols_prefix(d, d, upto - 1);
    if i < upto - 1 {
        lemma_d_symbol_at(d, upto - 1, i);
    }
}

/// The D-residuals of a block as they are written: the switch to their
/// context, and the 256 residuals.
pub open spec fn d_residuals_symbols(d: Seq<DResidual>) -> Seq<Symbol> {
    seq![Symbol::Context(D_CONTEXT)] + d_symbols(d, 256)
}

/// What is left of the written D-residuals after the first `i`, followed
/// by `rest`, begins with the residual at index `i`.
proof fn lemma_d_symbols_next(d: Seq<DResidual>, i: int, rest: Seq<Symbol>)
    requires
        0 <= i < 256,
    ensures
        d_symbols(d, 256).skip(i) + rest == seq![d_symbol(d[i])] + (d_symbols(d, 256).skip(i + 1)
            + rest),
{
    lemma_d_symbol_at(d, 256, i);
    assert(d_symbols(d, 256).skip(i) + rest =~= seq![d_symbol(d[i])] + (d_symbols(d, 256).skip(
        i + 1,
    ) + rest));
}

/// Whether each of the 256 D-residuals can be written.
pub fn check_d_residuals(d_residuals: &[DResidual; 256]) -> (valid: bool)
    ensures
        valid == d_residuals_valid(d_residuals@),
{
    let mut i: usize = 0;
    while i < 256
        invariant
            i <= 256,
            forall|j: int| 0 <= j < i ==> d_residual_valid(#[trigger] d_residuals@[j]),
        decreases 256 - i,
    {
        if d_residuals[i] < -255 || d_residuals[i] > 256 {
            return false;
        }
        i += 1;
    }
    true
}

/// Writes the 256 D-residuals of a block under their context. They are
/// written as they are: nothing is lost of them. A residual that cannot be
/// written is refused before anything is written.
pub fn compress_d_residuals(
    d_residuals: &[DResidual; 256],
    output: &mut CompressedOutput,
) -> (result: Result<(), CodecError>)
    requires
        old(output).wf(),
    ensures
        writes_on(*old(output), *final(output)),
        match result {
            Ok(_) => {
                &&& d_residuals_valid(d_residuals@)
                &&& final(output).context() == D_CONTEXT
                &&& final(output).symbols() == old(output).symbols() + seq![
                    Symbol::Context(D_CONTEXT),
                ] + d_symbols(d_residuals@, 256)
            },
            Err(e) => {
                &&& e == CodecError::InvalidInput
                &&& !d_residuals_valid(d_residuals@)
                &&& final(output).symbols() == old(output).symbols()
                &&& final(output).context() == old(output).context()
            },
        },
{
    if !check_d_residuals(d_residuals) {
        return Err(CodecError::InvalidInput);
    }
    write_context(output, D_CONTEXT);
    let ghost start = output.symbols();
    let mut i: usize = 0;
    while i < 256
        invariant
            i <= 256,
            d_residuals_valid(d_residuals@),
            writes_on(*old(output), *output),
            output.context() == D_CONTEXT,
            output.symbols() == start + d_symbols(d_residuals@, i as int),
        decreases 256 - i,
    {
        assert(d_residual_valid(d_residuals@[i as int]));
        write_value(output, (d_residuals[i] + 255) as usize);
        assert(output.symbols() =~= start + d_symbols(d_residuals@, i + 1));
        i += 1;
    }
    assert(output.symbols() =~= old(output).symbols() + seq![Symbol::Context(D_CONTEXT)]
        + d_symbols(d_residuals@, 256));
    Ok(())
}

/// Reads the 256 D-residuals of a block under their context. Where the
/// decoder gives what is written for 256 residuals, these are read.
pub fn decompress_d_residuals(
    d_residuals: &mut [DResidual; 256],
    input: &mut CompressedInput,
) -> (result: Result<(), CodecError>)
    requires
        old(input).wf(),
    ensures
        reads_on(*old(input), *final(input)),
        match result {
            Ok(_) => {
                &&& d_residuals_valid(final(d_residuals)@)
                &&& final(input).context() == D_CONTEXT
                &&& !final(input).spec_finished()
                &&& !final(input).spec_failed()
                &&& final(input).delivered() == old(input).delivered() + seq![
                    Symbol::Context(D_CONTEXT),
                ] + d_symbols(final(d_residuals)@, 256)
            },
            Err(e) => read_failed(*final(input), e),
        },
        live(*old(input)) ==> forall|d: Seq<DResidual>, rest: Seq<Symbol>|
            d.len() == 256 && d_residuals_valid(d) && #[trigger] old(input).point().follows(
                d_residuals_symbols(d) + rest,
            ) ==> result is Ok && final(d_residuals)@ == d
                && final(input).point().follows(rest),
        live(*old(input)) && (exists|d: Seq<DResidual>|
            d.len() == 256 && d_residuals_valid(d) && #[trigger] old(
                input,
            ).point().follows(d_residuals_symbols(d))) ==> result is Ok,
{
    let ghost origin = input.point();
    let ghost was_live = live(*input);
    proof {
        assert forall|d: Seq<DResidual>| #[trigger]
            origin.follows(d_residuals_symbols(d)) implies origin.follows(
            d_residuals_symbols(d) + Seq::<Symbol>::empty(),
        ) by {
            assert(d_residuals_symbols(d) + Seq::<Symbol>::empty() =~= d_residuals_symbols(d));
        }
    }
    proof {
        assert forall|d: Seq<DResidual>, rest: Seq<Symbol>| #[trigger]
            origin.follows(d_residuals_symbols(d) + rest) implies origin.follows(
            seq![Symbol::Context(D_CONTEXT)] + (d_symbols(d, 256).skip(0) + rest),
        ) by {
            assert(d_residuals_symbols(d) + rest =~= seq![Symbol::Context(D_CONTEXT)] + (d_symbols(
                d,
                256,
            ).skip(0) + rest));
        }
    }
    read_context(input, D_CONTEXT);
    let ghost start = input.delivered();
    let mut i: usize = 0;
    proof {
        assert forall|d: Seq<DResidual>| d_residuals@.take(0) == #[trigger] d.take(0) by {
            assert(d_residuals@.take(0) =~= d.take(0));
        }
    }
    while i < 256
        invariant
            i <= 256,
            reads_on(*old(input), *input),
            input.context() == D_CONTEXT,
            forall|j: int| 0 <= j < i ==> d_residual_valid(#[trigger] d_residuals@[j]),
            input.delivered() == start + d_symbols(d_residuals@, i as int),
            i > 0 ==> !input.spec_finished() && !input.spec_failed(),
            was_live ==> live(*input),
            was_live == live(*old(input)),
            origin == old(input).point(),
            forall|d: Seq<DResidual>| #[trigger]
                origin.follows(d_residuals_symbols(d)) ==> origin.follows(
                    d_residuals_symbols(d) + Seq::<Symbol>::empty(),
                ),
            was_live ==> forall|d: Seq<DResidual>, rest: Seq<Symbol>|
                d.len() == 256 && d_residuals_valid(d) && #[trigger] origin.follows(
                    d_residuals_symbols(d) + rest,
                )
                    ==> d_residuals@.take(i as int) == d.take(i as int) && input.point().follows(
                    d_symbols(d, 256).skip(i as int) + rest,
                ),
        decreases 256 - i,
    {
        let ghost here = input.point();
        proof {
            if was_live {
                assert forall|d: Seq<DResidual>, rest: Seq<Symbol>|
                    d.len() == 256 && d_residuals_valid(d) && #[trigger] origin.follows(
                        d_residuals_symbols(d) + rest,
                    ) implies here.follows(
                    seq![d_symbol(d[i as int])] + (d_symbols(d, 256).skip(i + 1) + rest),
                ) by {
                    lemma_d_symbols_next(d, i as int, rest);
                }
            }
        }
        let value = read_value(input)?;
        let ghost before = d_residuals@;
        d_residuals[i] = value as DResidual - 255;
        proof {
            lemma_d_symbols_prefix(before, d_residuals@, i as int);
            assert(input.delivered() =~= start + d_symbols(d_residuals@, i + 1));
            if was_live {
                assert forall|d: Seq<DResidual>, rest: Seq<Symbol>|
                    d.len() == 256 && d_residuals_valid(d) && #[trigger] origin.follows(
                        d_residuals_symbols(d) + rest,
                    ) implies d_residuals@.take(i + 1) == d.take(i + 1) && input.point().follows(
                    d_symbols(d, 256).skip(i + 1) + rest,
                ) by {
                    assert(here.follows(
                        seq![d_symbol(d[i as int])] + (d_symbols(d, 256).skip(i + 1) + rest),
                    ));
                    assert(d_residual_valid(d[i as int]));
                    assert(before.take(i as int) == d.take(i as int));
                    assert forall|j: int| 0 <= j < i implies d_residuals@[j] == d[j] by {
                        assert(before.take(i as int)[j] == d.take(i as int)[j]);
                    }
                    assert(d_residuals@.take(i + 1) =~= d.take(i + 1));
                }
            }
        }
        i += 1;
    }
    proof {
        assert(input.delivered() =~= old(input).delivered() + seq![Symbol::Context(D_CONTEXT)]
            + d_symbols(d_residuals@, 256));
        if was_live {
            assert forall|d: Seq<DResidual>, rest: Seq<Symbol>|
                d.len() == 256 && d_residuals_valid(d) && #[trigger] origin.follows(
                    d_residuals_symbols(d) + rest,
                ) implies d_residuals@ == d && input.point().follows(rest) by {
                lemma_d_symbol_at(d, 256, 0);
                assert(d_symbols(d, 256).skip(256) + rest =~= rest);
                assert(d_residuals@.take(256) =~= d_residuals@);
                assert(d.take(256) =~= d);
            }
        }
    }
    Ok(())
}

/// The first block of a cube as it stands in a stream. Its head event is
/// written as it is; the residuals are relative to it.
#[derive(Debug, Clone, Copy, PartialEq, Eq)]
pub struct AduIntraBlock {
    /// The time of the head event.
    pub head_event_t: AbsoluteT,
    /// The decimation of the head event.
    pub head_event_d: D,
    /// How many bits the time residuals are shifted by.
    pub shift_loss_param: u8,
    /// Prediction residuals of D between each event and the head event.
    pub d_residuals: [DResidual; 256],
    /// Prediction residuals of delta_t between each event and the head event.
    pub dt_residuals: [i16; 256],
}

impl AduIntraBlock {
    /// Whether the block can be written under `delta_t_max`.
    pub open spec fn valid(&self, delta_t_max: DeltaT) -> bool {
        residuals_valid(self.d_residuals@, self.dt_residuals@, delta_t_max)
    }

    /// Whether the block holds no time residual for a pixel without an event.
    pub open spec fn canonical(&self) -> bool {
        dt_residuals_canonical(self.d_residuals@, self.dt_residuals@)
    }

    /// The block as it is written: the head event's decimation and time and
    /// the shift under the context for bytes, the D-residuals under theirs,
    /// and under theirs the time residuals of the pixels that have an event.
    pub open spec fn symbols(&self, delta_t_max: DeltaT) -> Seq<Symbol> {
        seq![Symbol::Context(U8_GENERAL_CONTEXT)] + u8_symbols(self.head_event_d) + u32_symbols(
            self.head_event_t,
        ) + u8_symbols(self.shift_loss_param) + seq![Symbol::Context(D_CONTEXT)] + d_symbols(
            self.d_residuals@,
            256,
        ) + seq![Symbol::Context(DT_CONTEXT)] + dt_symbols(
            self.d_residuals@,
            self.dt_residuals@,
            delta_t_max,
            256,
        )
    }

    /// A block without events.
    pub fn empty() -> (block: Self)
        ensures
            block.head_event_t == 0,
            block.head_event_d == 0,
            block.shift_loss_param == 0,
            forall|i: int| 0 <= i < 256 ==> block.d_residuals@[i] == D_ENCODE_NO_EVENT,
            forall|i: int| 0 <= i < 256 ==> block.dt_residuals@[i] == 0,
    {
        AduIntraBlock {
            head_event_t: 0,
            head_event_d: 0,
            shift_loss_param: 0,
            d_residuals: [D_ENCODE_NO_EVENT;256],
            dt_residuals: [0;256],
        }
    }

    /// Whether the block can be written under `delta_t_max`.
    pub fn check(&self, delta_t_max: DeltaT) -> (valid: bool)
        ensures
            valid == self.valid(delta_t_max),
    {
        check_d_residuals(&self.d_residuals)
            && crate::codec::compressed::adu::interblock::check_dt_residuals(
            &self.dt_residuals,
            &self.d_residuals,
            delta_t_max,
        )
    }

    /// Writes the block. A block that cannot be written is refused before
    /// anything is written.
    pub fn compress(&self, output: &mut CompressedOutput) -> (result: Result<(), CodecError>)
        requires
            old(output).wf(),
        ensures
            writes_on(*old(output), *final(output)),
            match result {
                Ok(_) => {
                    &&& self.valid(old(output).delta_t_max())
                    &&& final(output).context() == DT_CONTEXT
                    &&& final(output).symbols() == old(output).symbols() + self.symbols(
                        old(output).delta_t_max(),
                    )
                },
                Err(e) => {
                    &&& e == CodecError::InvalidInput
                    &&& !self.valid(old(output).delta_t_max())
                    &&& final(output).symbols() == old(output).symbols()
                    &&& final(output).context() == old(output).context()
                },
            },
    {
        let delta_t_max = output.dtm();
        if !self.check(delta_t_max) {
            return Err(CodecError::InvalidInput);
        }
        write_context(output, U8_GENERAL_CONTEXT);
        write_u8(output, self.head_event_d);
        write_u32(output, self.head_event_t);
        write_u8(output, self.shift_loss_param);
        match compress_d_residuals(&self.d_residuals, output) {
            Ok(_) => {},
            Err(e) => {
                return Err(e);
            },
        }
        match compress_dt_residuals(&self.dt_residuals, &self.d_residuals, output) {
            Ok(_) => {},
            Err(e) => {
                return Err(e);
            },
        }
        assert(output.symbols() =~= old(output).symbols() + self.symbols(delta_t_max));
        Ok(())
    }

    /// Reads a block. What was handed out while reading is the block as it
    /// is written. Where the stream has neither ended nor failed and the
    /// decoder gives what is written for a block, that block is read.
    pub fn decompress(input: &mut CompressedInput) -> (result: Result<Self, CodecError>)
        requires
            old(input).wf(),
        ensures
            reads_on(*old(input), *final(input)),
            match result {
                Ok(block) => {
                    &&& block.valid(old(input).delta_t_max())
                    &&& block.canonical()
                    &&& final(input).context() == DT_CONTEXT
                    &&& !final(input).spec_finished()
                    &&& !final(input).spec_failed()
                    &&& final(input).delivered() == old(input).delivered() + block.symbols(
                        old(input).delta_t_max(),
                    )
                    &&& intra_block_read_from(
                        final(input).delivered().skip(old(input).delivered().len() as int),
                        old(input).delta_t_max(),
                    ) == Some(block)
                },
                Err(e) => read_failed(*final(input), e),
            },
            live(*old(input)) ==> forall|b: AduIntraBlock, rest: Seq<Symbol>|
                b.valid(old(input).delta_t_max()) && b.canonical() && #[trigger] old(
                    input,
                ).point().follows(b.symbols(old(input).delta_t_max()) + rest) ==> result == Ok::<
                    AduIntraBlock,
                    CodecError,
                >(b) && final(input).point().follows(rest),
            live(*old(input)) && (exists|b: AduIntraBlock|
                b.valid(old(input).delta_t_max()) && b.canonical() && #[trigger] old(
                    input,
                ).point().follows(b.symbols(old(input).delta_t_max()))) ==> result is Ok,
    {
        let ghost origin = input.point();
        let ghost was_live = live(*input);
        let ghost delta_t_max = input.delta_t_max();
        proof {
            assert forall|b: AduIntraBlock| #[trigger]
                origin.follows(b.symbols(delta_t_max)) implies origin.follows(
                b.symbols(delta_t_max) + Seq::<Symbol>::empty(),
            ) by {
                assert(b.symbols(delta_t_max) + Seq::<Symbol>::empty() =~= b.symbols(delta_t_max));
            }
        }
        proof {
            assert forall|b: AduIntraBlock, rest: Seq<Symbol>| #[trigger]
                origin.follows(b.symbols(delta_t_max) + rest) implies origin.follows(
                seq![Symbol::Context(U8_GENERAL_CONTEXT)] + (u8_symbols(b.head_event_d) + (
                u32_symbols(b.head_event_t) + (u8_symbols(b.shift_loss_param) + (
                d_residuals_symbols(b.d_residuals@) + (dt_residuals_symbols(
                    b.d_residuals@,
                    b.dt_residuals@,
                    delta_t_max,
                ) + rest))))),
            ) by {
                lemma_intra_block_nested(b, delta_t_max, rest);
            }
        }
        let mut intra_block = AduIntraBlock::empty();
        read_context(input, U8_GENERAL_CONTEXT);
        intra_block.head_event_d = read_u8(input)?;
        intra_block.head_event_t = read_u32(input)?;
        intra_block.shift_loss_param = read_u8(input)?;
        decompress_d_residuals(&mut intra_block.d_residuals, input)?;
        decompress_dt_residuals(&mut intra_block.dt_residuals, &intra_block.d_residuals, input)?;
        proof {
            let written = intra_block.symbols(input.delta_t_max());
            assert(input.delivered() =~= old(input).delivered() + written);
            lemma_after_prefix(old(input).delivered(), written);
            input.lemma_wf();
            lemma_intra_block_decode_inverts_encode(intra_block, input.delta_t_max());
            if was_live {
                assert forall|b: AduIntraBlock, rest: Seq<Symbol>|
                    b.valid(delta_t_max) && b.canonical() && #[trigger] origin.follows(
                        b.symbols(delta_t_max) + rest,
                    ) implies intra_block == b && input.point().follows(rest) by {
                    assert(intra_block.d_residuals@ == b.d_residuals@);
                    assert(same_at_events(
                        b.d_residuals@,
                        intra_block.dt_residuals@,
                        b.dt_residuals@,
                        256,
                    ));
                    assert(intra_block.dt_residuals@ =~= b.dt_residuals@);
                    assert(intra_block.d_residuals =~= b.d_residuals);
                    assert(intra_block.dt_residuals =~= b.dt_residuals);
                }
            }
        }
        Ok(intra_block)
    }
}

/// What is written for a first block, followed by `rest`, part by part.
pub proof fn lemma_intra_block_nested(b: AduIntraBlock, delta_t_max: DeltaT, rest: Seq<Symbol>)
    ensures
        b.symbols(delta_t_max) + rest == seq![Symbol::Context(U8_GENERAL_CONTEXT)] + (u8_symbols(
            b.head_event_d,
        ) + (u32_symbols(b.head_event_t) + (u8_symbols(b.shift_loss_param) + (
        d_residuals_symbols(b.d_residuals@) + (dt_residuals_symbols(
            b.d_residuals@,
            b.dt_residuals@,
            delta_t_max,
        ) + rest))))),
{
    let d = d_symbols(b.d_residuals@, 256);
    let t = dt_symbols(b.d_residuals@, b.dt_residuals@, delta_t_max, 256);
    let head = u8_symbols(b.head_event_d);
    let time = u32_symbols(b.head_event_t);
    let shift = u8_symbols(b.shift_loss_param);
    assert(seq![Symbol::Context(U8_GENERAL_CONTEXT)] + head + time + shift + seq![
        Symbol::Context(D_CONTEXT),
    ] + d + seq![Symbol::Context(DT_CONTEXT)] + t + rest =~= seq![
        Symbol::Context(U8_GENERAL_CONTEXT),
    ] + (head + (time + (shift + ((seq![Symbol::Context(D_CONTEXT)] + d) + ((seq![
        Symbol::Context(DT_CONTEXT),
    ] + t) + rest))))));
}

/// Two first blocks that can be written, hold nothing for pixels without
/// an event, and are written alike, whatever follows them, are the same
/// block, and the same follows them.
pub proof fn lemma_intra_block_unique(
    a: AduIntraBlock,
    b: AduIntraBlock,
    delta_t_max: DeltaT,
    rest_a: Seq<Symbol>,
    rest_b: Seq<Symbol>,
)
    requires
        delta_t_max <= crate::codec::compressed::stream::MAX_DELTA_T,
        a.valid(delta_t_max),
        a.canonical(),
        b.valid(delta_t_max),
        b.canonical(),
        a.symbols(delta_t_max) + rest_a == b.symbols(delta_t_max) + rest_b,
    ensures
        a == b,
        rest_a == rest_b,
{
    let whole_a = a.symbols(delta_t_max) + rest_a;
    let whole_b = b.symbols(delta_t_max) + rest_b;
    lemma_d_symbols_prefix(a.d_residuals@, a.d_residuals@, 256);
    lemma_d_symbols_prefix(b.d_residuals@, b.d_residuals@, 256);
    assert(whole_a[1] == Symbol::Value(a.head_event_d as usize));
    assert(whole_b[1] == Symbol::Value(b.head_event_d as usize));
    assert(whole_a.subrange(2, 6) =~= u32_symbols(a.head_event_t));
    assert(whole_b.subrange(2, 6) =~= u32_symbols(b.head_event_t));
    lemma_u32_symbols_injective(a.head_event_t, b.head_event_t);
    assert(whole_a[6] == Symbol::Value(a.shift_loss_param as usize));
    assert(whole_b[6] == Symbol::Value(b.shift_loss_param as usize));
    let tail_a = seq![Symbol::Context(DT_CONTEXT)] + dt_symbols(
        a.d_residuals@,
        a.dt_residuals@,
        delta_t_max,
        256,
    ) + rest_a;
    let tail_b = seq![Symbol::Context(DT_CONTEXT)] + dt_symbols(
        b.d_residuals@,
        b.dt_residuals@,
        delta_t_max,
        256,
    ) + rest_b;
    assert(whole_a.skip(8) =~= d_symbols(a.d_residuals@, 256) + tail_a);
    assert(whole_b.skip(8) =~= d_symbols(b.d_residuals@, 256) + tail_b);
    lemma_d_symbols_unique(a.d_residuals@, b.d_residuals@, tail_a, tail_b);
    assert(a.d_residuals@ =~= b.d_residuals@);
    assert(tail_a.skip(1) =~= dt_symbols(a.d_residuals@, a.dt_residuals@, delta_t_max, 256)
        + rest_a);
    assert(tail_b.skip(1) =~= dt_symbols(a.d_residuals@, b.dt_residuals@, delta_t_max, 256)
        + rest_b);
    lemma_dt_symbols_unique(
        a.d_residuals@,
        a.dt_residuals@,
        b.dt_residuals@,
        delta_t_max,
        rest_a,
        rest_b,
    );
    assert(a.dt_residuals@ =~= b.dt_residuals@);
    assert(a.d_residuals =~= b.d_residuals);
    assert(a.dt_residuals =~= b.dt_residuals);
}

/// Whether `block` is a first block that comes out of a stream and is
/// written as `symbols`.
pub open spec fn intra_block_written_as(
    block: AduIntraBlock,
    symbols: Seq<Symbol>,
    delta_t_max: DeltaT,
) -> bool {
    block.valid(delta_t_max) && block.canonical() && block.symbols(delta_t_max) == symbols
}

/// The first block that is written as `symbols`, if there is one.
#[verifier::opaque]
pub open spec fn intra_block_read_from(symbols: Seq<Symbol>, delta_t_max: DeltaT) -> Option<
    AduIntraBlock,
> {
    if exists|block: AduIntraBlock| intra_block_written_as(block, symbols, delta_t_max) {
        Some(choose|block: AduIntraBlock| intra_block_written_as(block, symbols, delta_t_max))
    } else {
        None
    }
}

/// Decoding inverts encoding: what is written for a first block is read
/// back as that block, if the block can be written and holds no time
/// residual for a pixel without an event.
pub proof fn lemma_intra_block_decode_inverts_encode(block: AduIntraBlock, delta_t_max: DeltaT)
    requires
        delta_t_max <= crate::codec::compressed::stream::MAX_DELTA_T,
        block.valid(delta_t_max),
        block.canonical(),
    ensures
        intra_block_read_from(block.symbols(delta_t_max), delta_t_max) == Some(block),
{
    reveal(intra_block_read_from);
    let symbols = block.symbols(delta_t_max);
    assert(intra_block_written_as(block, symbols, delta_t_max));
    let found = choose|b: AduIntraBlock| intra_block_written_as(b, symbols, delta_t_max);
    lemma_intra_block_unique(found, block, delta_t_max, Seq::empty(), Seq::empty());
}

/// What is written for D-residuals is all values.
pub proof fn lemma_d_symbols_values(d: Seq<DResidual>, upto: int)
    requires
        0 <= upto,
    ensures
        crate::codec::compressed::adu::all_values(d_symbols(d, upto)),
        d_symbols(d, upto).len() == upto,
    decreases upto,
{
    if upto > 0 {
        lemma_d_symbols_values(d, upto - 1);
    }
}

/// Two runs of D-residuals whose writing comes from one point are the
/// same residuals, and what follows either comes from the point after it.
pub proof fn lemma_d_residuals_determined(
    point: DecoderPoint,
    a: Seq<DResidual>,
    rest_a: Seq<Symbol>,
    b: Seq<DResidual>,
    rest_b: Seq<Symbol>,
)
    requires
        a.len() == 256,
        b.len() == 256,
        d_residuals_valid(a),
        d_residuals_valid(b),
        point.follows(d_residuals_symbols(a) + rest_a),
        point.follows(d_residuals_symbols(b) + rest_b),
    ensures
        a == b,
        point.after_all(d_residuals_symbols(a)).follows(rest_a),
        point.after_all(d_residuals_symbols(a)).follows(rest_b),
{
    let switch = seq![Symbol::Context(D_CONTEXT)];
    lemma_append_assoc(switch, d_symbols(a, 256), rest_a);
    lemma_append_assoc(switch, d_symbols(b, 256), rest_b);
    lemma_piece_agrees(point, switch, d_symbols(a, 256) + rest_a, d_symbols(b, 256) + rest_b);
    lemma_d_symbols_values(a, 256);
    lemma_d_symbols_values(b, 256);
    lemma_values_agree(
        point.after_all(switch),
        d_symbols(a, 256),
        rest_a,
        d_symbols(b, 256),
        rest_b,
    );
    lemma_d_symbols_unique(a, b, Seq::empty(), Seq::empty());
    assert(a =~= b);
    lemma_follows_split(point, d_residuals_symbols(a), rest_a);
    lemma_follows_split(point, d_residuals_symbols(a), rest_b);
}

/// Two first blocks whose writing comes from one point are the same
/// block, and what follows either comes from the point after it.
pub proof fn lemma_intra_block_determined(
    point: DecoderPoint,
    a: AduIntraBlock,
    rest_a: Seq<Symbol>,
    b: AduIntraBlock,
    rest_b: Seq<Symbol>,
    delta_t_max: DeltaT,
)
    requires
        delta_t_max <= crate::codec::compressed::stream::MAX_DELTA_T,
        a.valid(delta_t_max),
        a.canonical(),
        b.valid(delta_t_max),
        b.canonical(),
        point.follows(a.symbols(delta_t_max) + rest_a),
        point.follows(b.symbols(delta_t_max) + rest_b),
    ensures
        a == b,
        point.after_all(a.symbols(delta_t_max)).follows(rest_a),
        point.after_all(a.symbols(delta_t_max)).follows(rest_b),
{
    lemma_intra_block_nested(a, delta_t_max, rest_a);
    lemma_intra_block_nested(b, delta_t_max, rest_b);
    let switch = seq![Symbol::Context(U8_GENERAL_CONTEXT)];
    let times_a = dt_residuals_symbols(a.d_residuals@, a.dt_residuals@, delta_t_max) + rest_a;
    let times_b = dt_residuals_symbols(b.d_residuals@, b.dt_residuals@, delta_t_max) + rest_b;
    let d_a = d_residuals_symbols(a.d_residuals@) + times_a;
    let d_b = d_residuals_symbols(b.d_residuals@) + times_b;
    let shift_a = u8_symbols(a.shift_loss_param) + d_a;
    let shift_b = u8_symbols(b.shift_loss_param) + d_b;
    let time_a = u32_symbols(a.head_event_t) + shift_a;
    let time_b = u32_symbols(b.head_event_t) + shift_b;
    lemma_piece_agrees(
        point,
        switch,
        u8_symbols(a.head_event_d) + time_a,
        u8_symbols(b.head_event_d) + time_b,
    );
    let step1 = point.after_all(switch);
    lemma_u8_determined(step1, a.head_event_d, time_a, b.head_event_d, time_b);
    let step2 = step1.after_all(u8_symbols(a.head_event_d));
    lemma_u32_determined(step2, a.head_event_t, shift_a, b.head_event_t, shift_b);
    let step3 = step2.after_all(u32_symbols(a.head_event_t));
    lemma_u8_determined(step3, a.shift_loss_param, d_a, b.shift_loss_param, d_b);
    let step4 = step3.after_all(u8_symbols(a.shift_loss_param));
    lemma_d_residuals_determined(step4, a.d_residuals@, times_a, b.d_residuals@, times_b);
    let step5 = step4.after_all(d_residuals_symbols(a.d_residuals@));
    lemma_dt_residuals_determined(
        step5,
        a.d_residuals@,
        a.dt_residuals@,
        rest_a,
        b.dt_residuals@,
        rest_b,
        delta_t_max,
    );
    assert(a.dt_residuals@ =~= b.dt_residuals@);
    assert(a.d_residuals =~= b.d_residuals);
    assert(a.dt_residuals =~= b.dt_residuals);
    lemma_follows_split(point, a.symbols(delta_t_max), rest_a);
    lemma_follows_split(point, a.symbols(delta_t_max), rest_b);
}

} // verus!
