//! The access decodable unit and its parts, as they are written to a coded
//! stream and read back from it.

use vstd::prelude::*;
use crate::codec::compressed::fenwick::context_switching::Symbol;
use crate::codec::compressed::stream::{
    alphabet_size, lemma_follows_first, lemma_follows_split, CompressedInput, CompressedOutput,
    DecoderPoint, DT_CONTEXT, EOF_CONTEXT, U8_GENERAL_CONTEXT,
};
use crate::codec::CodecError;

pub mod cube;
pub mod frame;
pub mod interblock;
pub mod intrablock;

verus! {

/// What stays as it is while a stream is read.
pub open spec fn reads_on(before: CompressedInput, after: CompressedInput) -> bool {
    &&& after.wf()
    &&& after.delta_t_max() == before.delta_t_max()
    &&& after.spec_ref_interval() == before.spec_ref_interval()
    &&& after.source() == before.source()
}

/// What stays as it is while a stream is written.
pub open spec fn writes_on(before: CompressedOutput, after: CompressedOutput) -> bool {
    &&& after.wf()
    &&& after.spec_meta() == before.spec_meta()
}

/// How the stream stands when reading from it ended with the error `e`:
/// the end of the stream came too early, or the source failed, or the value
/// handed out last is a time residual that no block can hold, or a value
/// where the stream had to end.
pub open spec fn read_failed(after: CompressedInput, e: CodecError) -> bool {
    match e {
        CodecError::PrematureEof => after.spec_finished(),
        CodecError::ReadFailure => after.spec_failed() && !after.spec_finished(),
        CodecError::CorruptStream => {
            &&& !after.spec_finished()
            &&& !after.spec_failed()
            &&& after.delivered().len() > 0
            &&& after.delivered().last() matches Symbol::Value(v) && {
                ||| after.context() == DT_CONTEXT && !(-32768 <= v - after.delta_t_max() <= 32767)
                ||| after.context() == EOF_CONTEXT
            }
        },
        _ => false,
    }
}

/// Whether the stream has neither ended nor failed.
pub open spec fn live(input: CompressedInput) -> bool {
    !input.spec_finished() && !input.spec_failed()
}

/// Whether every symbol of `symbols` is a value.
pub open spec fn all_values(symbols: Seq<Symbol>) -> bool {
    forall|i: int| 0 <= i < symbols.len() ==> #[trigger] symbols[i] is Value
}

/// Two runs of as many values that both come from one point are the same
/// values, and what follows either comes from the point after them.
pub proof fn lemma_values_agree(
    point: DecoderPoint,
    a: Seq<Symbol>,
    rest_a: Seq<Symbol>,
    b: Seq<Symbol>,
    rest_b: Seq<Symbol>,
)
    requires
        all_values(a),
        all_values(b),
        a.len() == b.len(),
        point.follows(a + rest_a),
        point.follows(b + rest_b),
    ensures
        a == b,
        point.after_all(a).follows(rest_a),
        point.after_all(a).follows(rest_b),
    decreases a.len(),
{
    lemma_follows_split(point, a, rest_a);
    lemma_follows_split(point, b, rest_b);
    if a.len() == 0 {
        assert(a =~= b);
    } else {
        let front_a = a.drop_last();
        let front_b = b.drop_last();
        assert(front_a + seq![a.last()] =~= a);
        assert(front_b + seq![b.last()] =~= b);
        assert(all_values(front_a)) by {
            assert forall|i: int| 0 <= i < front_a.len() implies #[trigger] front_a[i] is Value by {
                assert(a[i] is Value);
            }
        }
        assert(all_values(front_b)) by {
            assert forall|i: int| 0 <= i < front_b.len() implies #[trigger] front_b[i] is Value by {
                assert(b[i] is Value);
            }
        }
        lemma_values_agree(point, front_a, seq![a.last()], front_b, seq![b.last()]);
        lemma_follows_first(point.after_all(front_a), a.last(), Seq::empty());
        lemma_follows_first(point.after_all(front_a), b.last(), Seq::empty());
        assert(seq![a.last()] + Seq::<Symbol>::empty() =~= seq![a.last()]);
        assert(seq![b.last()] + Seq::<Symbol>::empty() =~= seq![b.last()]);
        assert(a.last() is Value);
        assert(b.last() is Value);
        assert(a.last() == b.last());
        assert(a =~= b);
    }
}

/// The same piece at the head of two traces that come from one point
/// leaves what follows it in either to come from the point after it.
pub proof fn lemma_piece_agrees(
    point: DecoderPoint,
    piece: Seq<Symbol>,
    rest_a: Seq<Symbol>,
    rest_b: Seq<Symbol>,
)
    requires
        point.follows(piece + rest_a),
        point.follows(piece + rest_b),
    ensures
        point.after_all(piece).follows(rest_a),
        point.after_all(piece).follows(rest_b),
{
    lemma_follows_split(point, piece, rest_a);
    lemma_follows_split(point, piece, rest_b);
}

/// What follows a prefix in a sequence is what was appended to the prefix.
pub proof fn lemma_after_prefix(prefix: Seq<Symbol>, tail: Seq<Symbol>)
    ensures
        (prefix + tail).skip(prefix.len() as int) == tail,
        (prefix + tail).take(prefix.len() as int) == prefix,
{
    assert((prefix + tail).skip(prefix.len() as int) =~= tail);
    assert((prefix + tail).take(prefix.len() as int) =~= prefix);
}

/// Appending in steps is appending at once.
pub proof fn lemma_append_assoc(a: Seq<Symbol>, b: Seq<Symbol>, c: Seq<Symbol>)
    ensures
        (a + b) + c == a + (b + c),
{
    assert((a + b) + c =~= a + (b + c));
}

/// Appending one more after appending is appending with one more.
pub proof fn lemma_push_after(before: Seq<Symbol>, written: Seq<Symbol>, last: Symbol)
    ensures
        (before + written).push(last) == before + written.push(last),
{
    assert((before + written).push(last) =~= before + written.push(last));
}

/// A byte as it is written.
pub open spec fn u8_symbols(x: u8) -> Seq<Symbol> {
    seq![Symbol::Value(x as usize)]
}

/// A 16-bit number as it is written: two bytes, the upper one first.
pub open spec fn u16_symbols(x: u16) -> Seq<Symbol> {
    seq![Symbol::Value((x / 256) as usize), Symbol::Value((x % 256) as usize)]
}

/// A 32-bit number as it is written: four bytes, the uppermost first.
pub open spec fn u32_symbols(x: u32) -> Seq<Symbol> {
    seq![
        Symbol::Value((x / 0x100_0000) as usize),
        Symbol::Value((x / 0x1_0000 % 256) as usize),
        Symbol::Value((x / 0x100 % 256) as usize),
        Symbol::Value((x % 256) as usize),
    ]
}

/// Two 16-bit numbers that are written alike are equal.
pub proof fn lemma_u16_symbols_injective(a: u16, b: u16)
    requires
        u16_symbols(a) == u16_symbols(b),
    ensures
        a == b,
{
    assert(u16_symbols(a)[0] == u16_symbols(b)[0]);
    assert(u16_symbols(a)[1] == u16_symbols(b)[1]);
}

/// Two 32-bit numbers that are written alike are equal.
pub proof fn lemma_u32_symbols_injective(a: u32, b: u32)
    requires
        u32_symbols(a) == u32_symbols(b),
    ensures
        a == b,
{
    assert(u32_symbols(a)[0] == u32_symbols(b)[0]);
    assert(u32_symbols(a)[1] == u32_symbols(b)[1]);
    assert(u32_symbols(a)[2] == u32_symbols(b)[2]);
    assert(u32_symbols(a)[3] == u32_symbols(b)[3]);
    assert(a / 0x100_0000 == b / 0x100_0000);
    assert(a / 0x1_0000 % 256 == b / 0x1_0000 % 256);
    assert(a / 0x100 % 256 == b / 0x100 % 256);
    assert(a % 256 == b % 256);
    assert(a == b) by (bit_vector)
        requires
            a / 0x100_0000 == b / 0x100_0000,
            a / 0x1_0000 % 256 == b / 0x1_0000 % 256,
            a / 0x100 % 256 == b / 0x100 % 256,
            a % 256 == b % 256,
    ;
}

proof fn lemma_u32_from_bytes(b0: u32, b1: u32, b2: u32, b3: u32, x: u32)
    by (bit_vector)
    requires
        b0 < 256,
        b1 < 256,
        b2 < 256,
        b3 < 256,
        x == b0 * 0x100_0000 + b1 * 0x1_0000 + b2 * 0x100 + b3,
    ensures
        x / 0x100_0000 == b0,
        x / 0x1_0000 % 256 == b1,
        x / 0x100 % 256 == b2,
        x % 256 == b3,
{
}

/// Writes a value of which the caller knows that the current alphabet
/// holds it.
pub(crate) fn write_value(output: &mut CompressedOutput, value: usize)
    requires
        old(output).wf(),
        value < alphabet_size(old(output).context(), old(output).delta_t_max()),
    ensures
        writes_on(*old(output), *final(output)),
        final(output).context() == old(output).context(),
        final(output).symbols() == old(output).symbols().push(Symbol::Value(value)),
{
    let _ = output.encode(value);
}

/// Makes one of the four contexts current for writing.
pub(crate) fn write_context(output: &mut CompressedOutput, context: usize)
    requires
        old(output).wf(),
        context < 4,
    ensures
        writes_on(*old(output), *final(output)),
        final(output).context() == context,
        final(output).symbols() == old(output).symbols().push(Symbol::Context(context)),
{
    let _ = output.set_context(context);
}

/// Makes one of the four contexts current for reading.
pub(crate) fn read_context(input: &mut CompressedInput, context: usize)
    requires
        old(input).wf(),
        context < 4,
    ensures
        reads_on(*old(input), *final(input)),
        final(input).context() == context,
        final(input).spec_finished() == old(input).spec_finished(),
        final(input).spec_failed() == old(input).spec_failed(),
        final(input).delivered() == old(input).delivered().push(Symbol::Context(context)),
        final(input).point() == old(input).point().step(Symbol::Context(context)),
        forall|rest: Seq<Symbol>| #[trigger]
            old(input).point().follows(seq![Symbol::Context(context)] + rest)
                ==> final(input).point().follows(rest),
{
    let _ = input.set_context(context);
    proof {
        assert forall|rest: Seq<Symbol>| #[trigger]
            old(input).point().follows(seq![Symbol::Context(context)] + rest) implies input.point().follows(
            rest,
        ) by {
            lemma_follows_first(old(input).point(), Symbol::Context(context), rest);
        }
    }
}

/// Reads the next value under the current context. The end of the stream
/// in its place is an error.
pub(crate) fn read_value(input: &mut CompressedInput) -> (result: Result<usize, CodecError>)
    requires
        old(input).wf(),
    ensures
        reads_on(*old(input), *final(input)),
        final(input).context() == old(input).context(),
        match result {
            Ok(v) => {
                &&& v < alphabet_size(old(input).context(), old(input).delta_t_max())
                &&& final(input).delivered() == old(input).delivered().push(Symbol::Value(v))
                &&& !old(input).spec_finished()
                &&& !old(input).spec_failed()
                &&& !final(input).spec_finished()
                &&& !final(input).spec_failed()
            },
            Err(e) => {
                &&& e == CodecError::PrematureEof || e == CodecError::ReadFailure
                &&& read_failed(*final(input), e)
                &&& final(input).delivered() == old(input).delivered()
            },
        },
        live(*old(input)) ==> forall|v: usize, rest: Seq<Symbol>| #[trigger]
            old(input).point().follows(seq![Symbol::Value(v)] + rest) ==> result == Ok::<
                usize,
                CodecError,
            >(v) && final(input).point().follows(rest),
{
    let result = input.decode();
    proof {
        if live(*old(input)) {
            assert forall|v: usize, rest: Seq<Symbol>| #[trigger]
                old(input).point().follows(seq![Symbol::Value(v)] + rest) implies result == Ok::<
                Option<usize>,
                CodecError,
            >(Some(v)) && input.point().follows(rest) by {
                lemma_follows_first(old(input).point(), Symbol::Value(v), rest);
            }
        }
    }
    match result {
        Ok(Some(v)) => Ok(v),
        Ok(None) => Err(CodecError::PrematureEof),
        Err(e) => Err(e),
    }
}

/// Writes a byte under the context for bytes.
pub(crate) fn write_u8(output: &mut CompressedOutput, x: u8)
    requires
        old(output).wf(),
        old(output).context() == U8_GENERAL_CONTEXT,
    ensures
        writes_on(*old(output), *final(output)),
        final(output).context() == U8_GENERAL_CONTEXT,
        final(output).symbols() == old(output).symbols() + u8_symbols(x),
{
    write_value(output, x as usize);
    assert(output.symbols() =~= old(output).symbols() + u8_symbols(x));
}

/// Writes a 16-bit number under the context for bytes.
pub(crate) fn write_u16(output: &mut CompressedOutput, x: u16)
    requires
        old(output).wf(),
        old(output).context() == U8_GENERAL_CONTEXT,
    ensures
        writes_on(*old(output), *final(output)),
        final(output).context() == U8_GENERAL_CONTEXT,
        final(output).symbols() == old(output).symbols() + u16_symbols(x),
{
    write_value(output, (x / 256) as usize);
    write_value(output, (x % 256) as usize);
    assert(output.symbols() =~= old(output).symbols() + u16_symbols(x));
}

/// Writes a 32-bit number under the context for bytes.
pub(crate) fn write_u32(output: &mut CompressedOutput, x: u32)
    requires
        old(output).wf(),
        old(output).context() == U8_GENERAL_CONTEXT,
    ensures
        writes_on(*old(output), *final(output)),
        final(output).context() == U8_GENERAL_CONTEXT,
        final(output).symbols() == old(output).symbols() + u32_symbols(x),
{
    write_value(output, (x / 0x100_0000) as usize);
    write_value(output, (x / 0x1_0000 % 256) as usize);
    write_value(output, (x / 0x100 % 256) as usize);
    write_value(output, (x % 256) as usize);
    assert(output.symbols() =~= old(output).symbols() + u32_symbols(x));
}

/// Reads a byte under the context for bytes.
pub(crate) fn read_u8(input: &mut CompressedInput) -> (result: Result<u8, CodecError>)
    requires
        old(input).wf(),
        old(input).context() == U8_GENERAL_CONTEXT,
    ensures
        reads_on(*old(input), *final(input)),
        final(input).context() == U8_GENERAL_CONTEXT,
        match result {
            Ok(x) => {
                &&& final(input).delivered() == old(input).delivered() + u8_symbols(x)
                &&& !final(input).spec_finished()
                &&& !final(input).spec_failed()
            },
            Err(e) => read_failed(*final(input), e),
        },
        live(*old(input)) ==> forall|x: u8, rest: Seq<Symbol>| #[trigger]
            old(input).point().follows(u8_symbols(x) + rest) ==> result == Ok::<u8, CodecError>(x)
                && final(input).point().follows(rest),
{
    proof {
        assert forall|x: u8, rest: Seq<Symbol>| #[trigger]
            old(input).point().follows(u8_symbols(x) + rest) implies old(input).point().follows(
            seq![Symbol::Value(x as usize)] + rest,
        ) by {}
    }
    let v = read_value(input)?;
    assert(input.delivered() =~= old(input).delivered() + u8_symbols(v as u8));
    Ok(v as u8)
}

/// Reads a 16-bit number under the context for bytes.
pub(crate) fn read_u16(input: &mut CompressedInput) -> (result: Result<u16, CodecError>)
    requires
        old(input).wf(),
        old(input).context() == U8_GENERAL_CONTEXT,
    ensures
        reads_on(*old(input), *final(input)),
        final(input).context() == U8_GENERAL_CONTEXT,
        match result {
            Ok(x) => {
                &&& final(input).delivered() == old(input).delivered() + u16_symbols(x)
                &&& !final(input).spec_finished()
                &&& !final(input).spec_failed()
            },
            Err(e) => read_failed(*final(input), e),
        },
        live(*old(input)) ==> forall|x: u16, rest: Seq<Symbol>| #[trigger]
            old(input).point().follows(u16_symbols(x) + rest) ==> result == Ok::<u16, CodecError>(x)
                && final(input).point().follows(rest),
{
    proof {
        assert forall|x: u16, rest: Seq<Symbol>| #[trigger]
            old(input).point().follows(u16_symbols(x) + rest) implies old(input).point().follows(
            seq![Symbol::Value((x / 256) as usize)] + (seq![Symbol::Value((x % 256) as usize)]
                + rest),
        ) by {
            assert(u16_symbols(x) + rest =~= seq![Symbol::Value((x / 256) as usize)] + (
            seq![Symbol::Value((x % 256) as usize)] + rest));
        }
    }
    let upper = read_value(input)?;
    let lower = read_value(input)?;
    let x: u16 = (upper * 256 + lower) as u16;
    assert(input.delivered() =~= old(input).delivered() + u16_symbols(x));
    Ok(x)
}

/// Reads a 32-bit number under the context for bytes.
pub(crate) fn read_u32(input: &mut CompressedInput) -> (result: Result<u32, CodecError>)
    requires
        old(input).wf(),
        old(input).context() == U8_GENERAL_CONTEXT,
    ensures
        reads_on(*old(input), *final(input)),
        final(input).context() == U8_GENERAL_CONTEXT,
        match result {
            Ok(x) => {
                &&& final(input).delivered() == old(input).delivered() + u32_symbols(x)
                &&& !final(input).spec_finished()
                &&& !final(input).spec_failed()
            },
            Err(e) => read_failed(*final(input), e),
        },
        live(*old(input)) ==> forall|x: u32, rest: Seq<Symbol>| #[trigger]
            old(input).point().follows(u32_symbols(x) + rest) ==> result == Ok::<u32, CodecError>(x)
                && final(input).point().follows(rest),
{
    proof {
        assert forall|x: u32, rest: Seq<Symbol>| #[trigger]
            old(input).point().follows(u32_symbols(x) + rest) implies old(input).point().follows(
            seq![Symbol::Value((x / 0x100_0000) as usize)] + (seq![
                Symbol::Value((x / 0x1_0000 % 256) as usize),
            ] + (seq![Symbol::Value((x / 0x100 % 256) as usize)] + (seq![
                Symbol::Value((x % 256) as usize),
            ] + rest))),
        ) by {
            assert(u32_symbols(x) + rest =~= seq![Symbol::Value((x / 0x100_0000) as usize)] + (
            seq![Symbol::Value((x / 0x1_0000 % 256) as usize)] + (seq![
                Symbol::Value((x / 0x100 % 256) as usize),
            ] + (seq![Symbol::Value((x % 256) as usize)] + rest))));
        }
    }
    let b0 = read_value(input)?;
    let b1 = read_value(input)?;
    let b2 = read_value(input)?;
    let b3 = read_value(input)?;
    let x: u32 = (b0 * 0x100_0000 + b1 * 0x1_0000 + b2 * 0x100 + b3) as u32;
    proof {
        lemma_u32_from_bytes(b0 as u32, b1 as u32, b2 as u32, b3 as u32, x);
    }
    assert(input.delivered() =~= old(input).delivered() + u32_symbols(x));
    Ok(x)
}

/// Two bytes that both come from one point are the same byte, and what
/// follows either comes from the point after it.
pub proof fn lemma_u8_determined(
    point: DecoderPoint,
    a: u8,
    rest_a: Seq<Symbol>,
    b: u8,
    rest_b: Seq<Symbol>,
)
    requires
        point.follows(u8_symbols(a) + rest_a),
        point.follows(u8_symbols(b) + rest_b),
    ensures
        a == b,
        point.after_all(u8_symbols(a)).follows(rest_a),
        point.after_all(u8_symbols(a)).follows(rest_b),
{
    lemma_values_agree(point, u8_symbols(a), rest_a, u8_symbols(b), rest_b);
    assert(u8_symbols(a)[0] == u8_symbols(b)[0]);
}

/// Two 16-bit numbers that both come from one point are the same number,
/// and what follows either comes from the point after it.
pub proof fn lemma_u16_determined(
    point: DecoderPoint,
    a: u16,
    rest_a: Seq<Symbol>,
    b: u16,
    rest_b: Seq<Symbol>,
)
    requires
        point.follows(u16_symbols(a) + rest_a),
        point.follows(u16_symbols(b) + rest_b),
    ensures
        a == b,
        point.after_all(u16_symbols(a)).follows(rest_a),
        point.after_all(u16_symbols(a)).follows(rest_b),
{
    lemma_values_agree(point, u16_symbols(a), rest_a, u16_symbols(b), rest_b);
    lemma_u16_symbols_injective(a, b);
}

/// Two 32-bit numbers that both come from one point are the same number,
/// and what follows either comes from the point after it.
pub proof fn lemma_u32_determined(
    point: DecoderPoint,
    a: u32,
    rest_a: Seq<Symbol>,
    b: u32,
    rest_b: Seq<Symbol>,
)
    requires
        point.follows(u32_symbols(a) + rest_a),
        point.follows(u32_symbols(b) + rest_b),
    ensures
        a == b,
        point.after_all(u32_symbols(a)).follows(rest_a),
        point.after_all(u32_symbols(a)).follows(rest_b),
{
    lemma_values_agree(point, u32_symbols(a), rest_a, u32_symbols(b), rest_b);
    lemma_u32_symbols_injective(a, b);
}

} // verus!
