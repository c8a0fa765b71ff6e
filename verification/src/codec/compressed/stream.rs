//! The coded stream: what is written to it and read from it, one symbol at
//! a time, under the context that the writer and the reader agree on.

use vstd::prelude::*;
use arithmetic_coding::{Decoder, Encoder};
use bitstream_io::{BigEndian, BitReader, BitWrite, BitWriter};
use std::io::Cursor;
use crate::codec::compressed::fenwick::context_switching::{
    accepted_in_turn, lemma_after_keeps_sizes, FenwickModel, ModelView, Symbol,
};
use crate::codec::{CodecError, CodecMetadata};
use crate::DeltaT;

verus! {

/// What a decoder has read of a coded stream and the interval that it has
/// narrowed down to: an `arithmetic_coding::decoder::State` over a
/// `bitstream_io::BitReader`. Nothing is known of what it holds.
#[verifier::external_body]
pub struct DecoderState {
    state: arithmetic_coding::decoder::State<u64, BitReader<Cursor<Vec<u8>>, BigEndian>>,
}

/// Why the coder did not deliver.
#[derive(Debug, Clone, Copy, PartialEq, Eq, Structural)]
pub enum CoderFault {
    /// The sink refused bits.
    Sink,
    /// The model had no share for a symbol.
    Symbol,
}

/// The bytes that the arithmetic coder writes for `symbols`, followed by
/// the end of the stream, when it starts from a model with these tables and
/// this current context.
pub uninterp spec fn coded_bytes(tables: Seq<Seq<u64>>, current: int, symbols: Seq<Symbol>) -> Seq<u8>;

/// Runs `arithmetic_coding::Encoder::encode_all` with `model` over
/// `symbols`, into a `bitstream_io::BitWriter` over a fresh vector, aligns
/// the writer to a byte and takes the vector out. `encode_all` codes each
/// symbol in turn, then the end of the stream, and flushes. The bytes depend
/// on the model and the symbols alone; where the call succeeds, they are
/// what `coded_bytes` names. The call fails only where the sink refuses
/// bits, which a vector never does, or where the model has no share for a
/// symbol when its turn comes; so it succeeds where the model accepts the
/// symbols in turn.
#[verifier::external_body]
fn coder_encode_all(model: FenwickModel, symbols: Vec<Symbol>) -> (result: Result<Vec<u8>, CoderFault>)
    ensures
        result matches Ok(bytes) ==> bytes@ == coded_bytes(model@.tables, model@.current, symbols@),
        accepted_in_turn(model@, symbols@) ==> result is Ok,
{
    let mut writer = BitWriter::endian(Vec::new(), BigEndian);
    match Encoder::new(model, &mut writer).encode_all(symbols) {
        Ok(()) => {},
        Err(arithmetic_coding::Error::Io(_)) => return Err(CoderFault::Sink),
        Err(arithmetic_coding::Error::ValueError(_)) => return Err(CoderFault::Symbol),
    }
    match writer.byte_align() {
        Ok(()) => Ok(writer.into_writer()),
        Err(_) => Err(CoderFault::Sink),
    }
}

/// The state of a decoder that has been made over `bytes` and has read
/// nothing yet.
pub uninterp spec fn decoder_opened(bytes: Seq<u8>) -> DecoderState;

/// Whether reading fails when a decoder in this state decodes once with a
/// model that has these tables and this current context.
pub uninterp spec fn decoder_failed(tables: Seq<Seq<u64>>, current: int, state: DecoderState) -> bool;

/// What a decoder in this state decodes next with a model that has these
/// tables and this current context, where reading does not fail: a symbol,
/// or nothing for the end of the stream.
pub uninterp spec fn decoded_symbol(
    tables: Seq<Seq<u64>>,
    current: int,
    state: DecoderState,
) -> Option<Symbol>;

/// The state of a decoder after it has decoded once from this state with a
/// model that has these tables and this current context.
pub uninterp spec fn decoder_after(
    tables: Seq<Seq<u64>>,
    current: int,
    state: DecoderState,
) -> DecoderState;

/// Makes an `arithmetic_coding::Decoder` with `model` over `bytes`, read
/// most significant bit first, and takes it apart again with `into_inner`.
/// Making a decoder asks the model for its largest denominator and
/// changes nothing in it. The state that comes out depends on the bytes
/// alone; it is what `decoder_opened` names.
#[verifier::external_body]
fn decoder_open(model: FenwickModel, bytes: Vec<u8>) -> (parts: (FenwickModel, DecoderState))
    ensures
        parts.0@ == model@,
        parts.1 == decoder_opened(bytes@),
{
    let reader = BitReader::endian(Cursor::new(bytes), BigEndian);
    let (model, state) = Decoder::new(model, reader).into_inner();
    (model, DecoderState { state })
}

/// Puts `model` and `state` together with `Decoder::with_state`, calls
/// `arithmetic_coding::Decoder::decode` once, and takes the decoder apart
/// again. `decode` asks the model which symbol the next bits stand for,
/// returns that symbol and has the model count it; where reading fails it
/// leaves the model as it was. The symbol is therefore one that the model
/// accepts and never a context. Whether reading fails, which symbol comes
/// and the state that is left depend on the model and the state alone;
/// they are what `decoder_failed`, `decoded_symbol` and `decoder_after`
/// name.
#[verifier::external_body]
fn decoder_step(model: FenwickModel, state: DecoderState) -> (step: (
    Result<Option<Symbol>, std::io::Error>,
    FenwickModel,
    DecoderState,
))
    ensures
        step.0 is Err <==> decoder_failed(model@.tables, model@.current, state),
        match step.0 {
            Ok(symbol) => {
                &&& model@.accepts(symbol)
                &&& !(symbol matches Some(Symbol::Context(_)))
                &&& step.1@ == model@.after(symbol)
                &&& symbol == decoded_symbol(model@.tables, model@.current, state)
                &&& step.2 == decoder_after(model@.tables, model@.current, state)
            },
            Err(_) => step.1@ == model@,
        },
{
    let mut decoder = Decoder::with_state(state.state, model);
    let symbol = decoder.decode();
    let (model, state) = decoder.into_inner();
    (symbol, model, DecoderState { state })
}

/// The number of the context for D-residuals.
pub const D_CONTEXT: usize = 0;

/// The number of the context for time residuals.
pub const DT_CONTEXT: usize = 1;

/// The number of the context for bytes of any kind: counts, shifts, indices.
pub const U8_GENERAL_CONTEXT: usize = 2;

/// The number of the context in which a stream ends.
pub const EOF_CONTEXT: usize = 3;

/// The largest `delta_t_max` for which the time residuals have a table.
pub const MAX_DELTA_T: DeltaT = 0x07ff_ffff;

/// The number of values in the alphabet of `context`: D-residuals from
/// -255 to 255 and the marker for no event; time residuals from
/// `-delta_t_max` to `delta_t_max`; bytes; and the one value that says that
/// a stream goes on.
pub open spec fn alphabet_size(context: int, delta_t_max: DeltaT) -> int {
    if context == D_CONTEXT {
        512
    } else if context == DT_CONTEXT {
        2 * delta_t_max + 1
    } else if context == U8_GENERAL_CONTEXT {
        256
    } else if context == EOF_CONTEXT {
        1
    } else {
        0
    }
}

/// The tables with which a stream starts: in each context, every value and
/// the end of the stream are counted once.
pub open spec fn initial_tables(delta_t_max: DeltaT) -> Seq<Seq<u64>> {
    Seq::new(
        4,
        |c: int| Seq::new((alphabet_size(c, delta_t_max) + 1) as nat, |i: int| 1u64),
    )
}

/// The model with which a stream starts, as its tables and its current
/// context.
pub open spec fn initial_view(delta_t_max: DeltaT) -> ModelView {
    ModelView { tables: initial_tables(delta_t_max), current: 0 }
}

/// Whether `tables` have the sizes of the four contexts.
pub open spec fn sized_for(tables: Seq<Seq<u64>>, delta_t_max: DeltaT) -> bool {
    &&& tables.len() == 4
    &&& forall|c: int| 0 <= c < 4 ==> (#[trigger] tables[c]).len() == alphabet_size(c, delta_t_max) + 1
}

/// The numbers of the contexts that a stream is coded under.
#[derive(Debug, Clone, Copy, PartialEq, Eq, Structural)]
pub struct Contexts {
    pub d_context: usize,
    pub dt_context: usize,
    pub u8_general_context: usize,
    pub eof_context: usize,
}

impl Contexts {
    /// The contexts under their fixed numbers.
    pub fn new() -> (contexts: Self)
        ensures
            contexts == (Contexts {
                d_context: D_CONTEXT,
                dt_context: DT_CONTEXT,
                u8_general_context: U8_GENERAL_CONTEXT,
                eof_context: EOF_CONTEXT,
            }),
    {
        Contexts {
            d_context: D_CONTEXT,
            dt_context: DT_CONTEXT,
            u8_general_context: U8_GENERAL_CONTEXT,
            eof_context: EOF_CONTEXT,
        }
    }
}

/// The model with which a stream starts.
fn initial_model(delta_t_max: DeltaT) -> (model: FenwickModel)
    requires
        delta_t_max <= MAX_DELTA_T,
    ensures
        model@.tables == initial_tables(delta_t_max),
        model@.current == 0,
{
    let mut model = FenwickModel::new();
    let d = model.push_context(512);
    let dt = model.push_context(2 * (delta_t_max as usize) + 1);
    let general = model.push_context(256);
    let eof = model.push_context(1);
    proof {
        assert(model@.tables =~= initial_tables(delta_t_max)) by {
            assert forall|c: int| 0 <= c < 4 implies model@.tables[c] =~= initial_tables(
                delta_t_max,
            )[c] by {}
        }
    }
    model
}

/// What was written stays accepted in turn when one more symbol is
/// written that the current context admits, and the sizes of the tables
/// stay as they are.
proof fn lemma_written(delta_t_max: DeltaT, symbols: Seq<Symbol>, context: int, next: Symbol)
    requires
        accepted_in_turn(initial_view(delta_t_max), symbols),
        sized_for(initial_view(delta_t_max).after_all(symbols).tables, delta_t_max),
        initial_view(delta_t_max).after_all(symbols).current == context,
        0 <= context < 4,
        match next {
            Symbol::Context(c) => c < 4,
            Symbol::Value(v) => v < alphabet_size(context, delta_t_max),
        },
    ensures
        accepted_in_turn(initial_view(delta_t_max), symbols.push(next)),
        sized_for(initial_view(delta_t_max).after_all(symbols.push(next)).tables, delta_t_max),
        initial_view(delta_t_max).after_all(symbols.push(next)).current == match next {
            Symbol::Context(c) => c as int,
            Symbol::Value(_) => context,
        },
{
    let model = initial_view(delta_t_max).after_all(symbols);
    assert(symbols.push(next).drop_last() =~= symbols);
    assert(model.tables[context].len() == alphabet_size(context, delta_t_max) + 1);
    lemma_after_keeps_sizes(model, Some(next));
    let after = model.after(Some(next));
    assert forall|c: int| 0 <= c < 4 implies (#[trigger] after.tables[c]).len() == alphabet_size(
        c,
        delta_t_max,
    ) + 1 by {
        assert(model.tables[c].len() == alphabet_size(c, delta_t_max) + 1);
    }
}

/// What came back from the coder, as this library reports it: the bytes,
/// or a failure to write.
pub fn coded_result(outcome: Result<Vec<u8>, CoderFault>) -> (result: Result<Vec<u8>, CodecError>)
    ensures
        match outcome {
            Ok(bytes) => result == Ok::<Vec<u8>, CodecError>(bytes),
            Err(_) => result == Err::<Vec<u8>, CodecError>(CodecError::WriteFailure),
        },
{
    match outcome {
        Ok(bytes) => Ok(bytes),
        Err(_) => Err(CodecError::WriteFailure),
    }
}

/// The writing end of a coded stream. It collects the symbols of one
/// unit, each under the context that is current when it is written, and
/// hands them to the arithmetic coder when the unit is complete.
pub struct CompressedOutput {
    meta: CodecMetadata,
    contexts: Contexts,
    model: FenwickModel,
    symbols: Vec<Symbol>,
    context: usize,
}

impl CompressedOutput {
    /// The symbols written so far, context switches among them.
    pub closed spec fn symbols(&self) -> Seq<Symbol> {
        self.symbols@
    }

    /// The number of the current context.
    pub closed spec fn context(&self) -> int {
        self.context as int
    }

    /// The options that the stream was opened with.
    pub closed spec fn spec_meta(&self) -> CodecMetadata {
        self.meta
    }

    /// The upper bound on time deltas that the stream was opened with.
    pub open spec fn delta_t_max(&self) -> DeltaT {
        self.spec_meta().delta_t_max
    }

    /// The model is the one that a stream starts with, the current context
    /// is one of the four, and the model accepts in turn what was written:
    /// every switch is to one of the four contexts, and every value lies
    /// in the alphabet of the context that was current when it was written.
    pub closed spec fn wf(&self) -> bool {
        &&& self.meta.delta_t_max <= MAX_DELTA_T
        &&& self.model@.tables == initial_tables(self.meta.delta_t_max)
        &&& self.model@.current == 0
        &&& self.context < 4
        &&& accepted_in_turn(initial_view(self.meta.delta_t_max), self.symbols@)
        &&& sized_for(
            initial_view(self.meta.delta_t_max).after_all(self.symbols@).tables,
            self.meta.delta_t_max,
        )
        &&& initial_view(self.meta.delta_t_max).after_all(self.symbols@).current == self.context
        &&& self.contexts == (Contexts {
            d_context: D_CONTEXT,
            dt_context: DT_CONTEXT,
            u8_general_context: U8_GENERAL_CONTEXT,
            eof_context: EOF_CONTEXT,
        })
    }

    /// A well-formed writer was opened with a `delta_t_max` that has a table.
    pub proof fn lemma_wf(&self)
        requires
            self.wf(),
        ensures
            self.delta_t_max() <= MAX_DELTA_T,
            0 <= self.context() < 4,
    {
    }

    /// Opens a stream for writing, with nothing written and the context for
    /// D-residuals current. A `delta_t_max` above `MAX_DELTA_T` is refused.
    pub fn new(meta: CodecMetadata) -> (result: Result<Self, CodecError>)
        ensures
            match result {
                Ok(output) => {
                    &&& meta.delta_t_max <= MAX_DELTA_T
                    &&& output.wf()
                    &&& output.spec_meta() == meta
                    &&& output.symbols() == Seq::<Symbol>::empty()
                    &&& output.context() == D_CONTEXT
                },
                Err(e) => meta.delta_t_max > MAX_DELTA_T && e == CodecError::InvalidInput,
            },
    {
        if meta.delta_t_max > MAX_DELTA_T {
            return Err(CodecError::InvalidInput);
        }
        let model = initial_model(meta.delta_t_max);
        Ok(
            CompressedOutput {
                meta,
                contexts: Contexts::new(),
                model,
                symbols: Vec::new(),
                context: D_CONTEXT,
            },
        )
    }

    /// The options that the stream was opened with.
    pub fn meta(&self) -> (meta: CodecMetadata)
        ensures
            meta == self.spec_meta(),
            meta.delta_t_max == self.delta_t_max(),
    {
        self.meta
    }

    /// The numbers of the contexts.
    pub fn contexts(&self) -> (contexts: Contexts)
        requires
            self.wf(),
        ensures
            contexts == (Contexts {
                d_context: D_CONTEXT,
                dt_context: DT_CONTEXT,
                u8_general_context: U8_GENERAL_CONTEXT,
                eof_context: EOF_CONTEXT,
            }),
    {
        self.contexts
    }

    /// The upper bound on time deltas that the stream was opened with.
    pub fn dtm(&self) -> (delta_t_max: DeltaT)
        requires
            self.wf(),
        ensures
            delta_t_max == self.delta_t_max(),
            delta_t_max <= MAX_DELTA_T,
    {
        self.meta.delta_t_max
    }

    /// The number of symbols written so far.
    pub fn len(&self) -> (n: usize)
        ensures
            n == self.symbols().len(),
    {
        self.symbols.len()
    }

    /// Makes `context` the current one for what is written next. A number
    /// that names no context is refused, and nothing changes.
    pub fn set_context(&mut self, context: usize) -> (result: Result<(), CodecError>)
        requires
            old(self).wf(),
        ensures
            final(self).wf(),
            final(self).spec_meta() == old(self).spec_meta(),
            match result {
                Ok(_) => {
                    &&& context < 4
                    &&& final(self).symbols() == old(self).symbols().push(Symbol::Context(context))
                    &&& final(self).context() == context
                },
                Err(e) => {
                    &&& context >= 4
                    &&& e == CodecError::InvalidInput
                    &&& final(self).symbols() == old(self).symbols()
                    &&& final(self).context() == old(self).context()
                },
            },
    {
        if context >= 4 {
            return Err(CodecError::InvalidInput);
        }
        proof {
            lemma_written(
                self.meta.delta_t_max,
                self.symbols@,
                self.context as int,
                Symbol::Context(context),
            );
        }
        self.symbols.push(Symbol::Context(context));
        self.context = context;
        Ok(())
    }

    /// The number of values in the alphabet of the current context.
    pub fn alphabet(&self) -> (size: usize)
        requires
            self.wf(),
        ensures
            size == alphabet_size(self.context(), self.delta_t_max()),
    {
        if self.context == D_CONTEXT {
            512
        } else if self.context == DT_CONTEXT {
            2 * (self.meta.delta_t_max as usize) + 1
        } else if self.context == U8_GENERAL_CONTEXT {
            256
        } else {
            1
        }
    }

    /// Writes `value` under the current context. A value outside that
    /// context's alphabet is refused, and nothing changes.
    pub fn encode(&mut self, value: usize) -> (result: Result<(), CodecError>)
        requires
            old(self).wf(),
        ensures
            final(self).wf(),
            final(self).spec_meta() == old(self).spec_meta(),
            final(self).context() == old(self).context(),
            match result {
                Ok(_) => {
                    &&& value < alphabet_size(old(self).context(), old(self).delta_t_max())
                    &&& final(self).symbols() == old(self).symbols().push(Symbol::Value(value))
                },
                Err(e) => {
                    &&& value >= alphabet_size(old(self).context(), old(self).delta_t_max())
                    &&& e == CodecError::InvalidInput
                    &&& final(self).symbols() == old(self).symbols()
                },
            },
    {
        if value >= self.alphabet() {
            return Err(CodecError::InvalidInput);
        }
        proof {
            lemma_written(
                self.meta.delta_t_max,
                self.symbols@,
                self.context as int,
                Symbol::Value(value),
            );
        }
        self.symbols.push(Symbol::Value(value));
        Ok(())
    }

    /// Ends the stream: switches to the context in which a stream ends,
    /// and has the arithmetic coder code everything that was written,
    /// followed by the end of the stream. Returns the coded bytes. This
    /// always succeeds: the model has a share for all that a stream lets
    /// one write.
    pub fn into_writer(self) -> (result: Result<Vec<u8>, CodecError>)
        requires
            self.wf(),
        ensures
            result matches Ok(bytes) && bytes@ == coded_bytes(
                initial_tables(self.delta_t_max()),
                0,
                self.symbols().push(Symbol::Context(EOF_CONTEXT)),
            ),
    {
        proof {
            lemma_written(
                self.meta.delta_t_max,
                self.symbols@,
                self.context as int,
                Symbol::Context(EOF_CONTEXT),
            );
        }
        let CompressedOutput { meta, contexts, model, symbols, context } = self;
        let mut symbols = symbols;
        symbols.push(Symbol::Context(EOF_CONTEXT));
        assert(model@ == initial_view(meta.delta_t_max));
        coded_result(coder_encode_all(model, symbols))
    }
}

/// What the decoder came back with, as this library reports it: a value,
/// the end of the stream, or a failure. A context never comes out of a
/// decoder; one that did would show a corrupt stream.
pub fn decoded_result(outcome: Result<Option<Symbol>, std::io::Error>) -> (result: Result<
    Option<usize>,
    CodecError,
>)
    ensures
        match outcome {
            Ok(Some(Symbol::Value(v))) => result == Ok::<Option<usize>, CodecError>(Some(v)),
            Ok(Some(Symbol::Context(_))) => result == Err::<Option<usize>, CodecError>(
                CodecError::CorruptStream,
            ),
            Ok(None) => result == Ok::<Option<usize>, CodecError>(None),
            Err(_) => result == Err::<Option<usize>, CodecError>(CodecError::ReadFailure),
        },
{
    match outcome {
        Ok(Some(Symbol::Value(v))) => Ok(Some(v)),
        Ok(Some(Symbol::Context(_))) => Err(CodecError::CorruptStream),
        Ok(None) => Ok(None),
        Err(_) => Err(CodecError::ReadFailure),
    }
}

/// Where a decoder stands: the model, and what the decoder has read.
pub ghost struct DecoderPoint {
    pub model: ModelView,
    pub state: DecoderState,
}

/// Where a decoder stands when it has been opened over `bytes` with the
/// model that a stream starts with.
pub open spec fn decoder_start(bytes: Seq<u8>, delta_t_max: DeltaT) -> DecoderPoint {
    DecoderPoint { model: initial_view(delta_t_max), state: decoder_opened(bytes) }
}

impl DecoderPoint {
    /// Whether reading fails when the decoder decodes from here.
    pub open spec fn failed(self) -> bool {
        decoder_failed(self.model.tables, self.model.current, self.state)
    }

    /// What the decoder decodes from here, where reading does not fail.
    pub open spec fn symbol(self) -> Option<Symbol> {
        decoded_symbol(self.model.tables, self.model.current, self.state)
    }

    /// Whether the decoder decodes the end of the stream from here.
    pub open spec fn ended(self) -> bool {
        !self.failed() && self.symbol() is None
    }

    /// Where the decoder stands after it has decoded once from here.
    pub open spec fn next(self) -> DecoderPoint {
        DecoderPoint {
            model: self.model.after(self.symbol()),
            state: decoder_after(self.model.tables, self.model.current, self.state),
        }
    }

    /// Whether `symbol` is what comes from here: a switch to a context that
    /// the model has, which is the reader's to make, or the value that the
    /// decoder decodes.
    pub open spec fn yields(self, symbol: Symbol) -> bool {
        match symbol {
            Symbol::Context(c) => c < self.model.tables.len(),
            Symbol::Value(v) => !self.failed() && self.symbol() == Some(Symbol::Value(v)),
        }
    }

    /// Where the decoder stands after `symbol`: after a switch the model
    /// has another current context, after a value the decoder has decoded
    /// once.
    pub open spec fn step(self, symbol: Symbol) -> DecoderPoint {
        match symbol {
            Symbol::Context(c) => DecoderPoint {
                model: self.model.after(Some(Symbol::Context(c))),
                state: self.state,
            },
            Symbol::Value(_) => self.next(),
        }
    }

    /// Where the decoder stands after each of `trace`, in turn.
    pub open spec fn after_all(self, trace: Seq<Symbol>) -> DecoderPoint
        decreases trace.len(),
    {
        if trace.len() == 0 {
            self
        } else {
            self.after_all(trace.drop_last()).step(trace.last())
        }
    }

    /// Whether `trace` is what comes from here, symbol by symbol: each of
    /// its values is what the decoder decodes after what came before it.
    pub open spec fn follows(self, trace: Seq<Symbol>) -> bool
        decreases trace.len(),
    {
        if trace.len() == 0 {
            true
        } else {
            &&& self.follows(trace.drop_last())
            &&& self.after_all(trace.drop_last()).yields(trace.last())
        }
    }
}

/// What comes from a point as one trace after another comes from it as
/// the two in one, and leaves the decoder at the same point.
pub proof fn lemma_follows_split(point: DecoderPoint, first: Seq<Symbol>, second: Seq<Symbol>)
    ensures
        point.after_all(first + second) == point.after_all(first).after_all(second),
        point.follows(first + second) == (point.follows(first) && point.after_all(first).follows(
            second,
        )),
    decreases second.len(),
{
    if second.len() == 0 {
        assert(first + second =~= first);
    } else {
        assert((first + second).drop_last() =~= first + second.drop_last());
        lemma_follows_split(point, first, second.drop_last());
    }
}

/// A trace of one symbol comes from a point where the point yields the
/// symbol, and leaves the decoder one step on.
pub proof fn lemma_follows_one(point: DecoderPoint, symbol: Symbol)
    ensures
        point.follows(seq![symbol]) == point.yields(symbol),
        point.after_all(seq![symbol]) == point.step(symbol),
{
    let front = seq![symbol].drop_last();
    assert(front =~= Seq::<Symbol>::empty());
    assert(point.follows(front));
    assert(point.after_all(front) == point);
    assert(seq![symbol].last() == symbol);
}

/// What follows a first symbol comes from one step on.
pub proof fn lemma_follows_first(point: DecoderPoint, symbol: Symbol, rest: Seq<Symbol>)
    ensures
        point.follows(seq![symbol] + rest) == (point.yields(symbol) && point.step(symbol).follows(
            rest,
        )),
        point.after_all(seq![symbol] + rest) == point.step(symbol).after_all(rest),
{
    lemma_follows_split(point, seq![symbol], rest);
    lemma_follows_one(point, symbol);
}

/// The reading end of a coded stream. It hands out the values of one unit,
/// each decoded under the context that is current when it is asked for.
pub struct CompressedInput {
    delta_t_max: DeltaT,
    ref_interval: DeltaT,
    contexts: Contexts,
    /// The model and what the decoder has read; nothing once reading failed.
    parts: Option<(FenwickModel, DecoderState)>,
    context: usize,
    finished: bool,
    delivered: Ghost<Seq<Symbol>>,
    source: Ghost<Seq<u8>>,
    stopped_at: Ghost<Seq<Symbol>>,
}

impl CompressedInput {
    /// The values handed out so far, and the context switches between them.
    pub closed spec fn delivered(&self) -> Seq<Symbol> {
        self.delivered@
    }

    /// The number of the current context.
    pub closed spec fn context(&self) -> int {
        self.context as int
    }

    /// The upper bound on time deltas that the stream was opened with.
    pub closed spec fn delta_t_max(&self) -> DeltaT {
        self.delta_t_max
    }

    /// The reference interval that the stream was opened with.
    pub closed spec fn spec_ref_interval(&self) -> DeltaT {
        self.ref_interval
    }

    /// Whether the end of the stream has been decoded.
    pub closed spec fn spec_finished(&self) -> bool {
        self.finished
    }

    /// Whether reading has failed.
    pub closed spec fn spec_failed(&self) -> bool {
        self.parts is None
    }

    /// The bytes that the stream was opened over.
    pub closed spec fn source(&self) -> Seq<u8> {
        self.source@
    }

    /// What had been handed out when the end of the stream came or reading
    /// failed.
    pub closed spec fn stopped_at(&self) -> Seq<Symbol> {
        self.stopped_at@
    }

    /// Where the decoder stood when the stream was opened.
    pub open spec fn start(&self) -> DecoderPoint {
        decoder_start(self.source(), self.delta_t_max())
    }

    /// Where the decoder stands after what has been handed out.
    pub open spec fn point(&self) -> DecoderPoint {
        self.start().after_all(self.delivered())
    }

    /// Where the decoder stood when the end of the stream came or reading
    /// failed.
    pub open spec fn stopped(&self) -> DecoderPoint {
        self.start().after_all(self.stopped_at())
    }

    /// What has been handed out is what the decoder gives for the bytes
    /// under the contexts that were switched to; the model and the decoder
    /// stand where that leaves them; and where the stream has ended or
    /// reading has failed, the decoder gave that.
    pub closed spec fn wf(&self) -> bool {
        &&& self.delta_t_max <= MAX_DELTA_T
        &&& self.context < 4
        &&& self.contexts == (Contexts {
            d_context: D_CONTEXT,
            dt_context: DT_CONTEXT,
            u8_general_context: U8_GENERAL_CONTEXT,
            eof_context: EOF_CONTEXT,
        })
        &&& self.parts matches Some(parts) ==> {
            &&& sized_for(parts.0@.tables, self.delta_t_max)
            &&& parts.0@.current == self.context
        }
        &&& self.start().follows(self.delivered@)
        &&& sized_for(self.point().model.tables, self.delta_t_max)
        &&& self.point().model.current == self.context
        &&& self.parts matches Some(parts) ==> (!self.finished ==> {
            &&& parts.0@ == self.point().model
            &&& parts.1 == self.point().state
        })
        &&& (self.finished || self.parts is None) ==> self.start().follows(self.stopped_at@)
        &&& self.finished ==> self.parts is Some && self.stopped().ended()
        &&& self.parts is None ==> self.stopped().failed()
    }

    /// A well-formed reader was opened with a `delta_t_max` that has a table.
    pub proof fn lemma_wf(&self)
        requires
            self.wf(),
        ensures
            self.delta_t_max() <= MAX_DELTA_T,
            0 <= self.context() < 4,
    {
    }

    /// What a well-formed reader has handed out is what the decoder gives
    /// for the bytes, and the current context is the model's. Where the
    /// stream has ended, the decoder gave the end after what had been
    /// handed out then; where reading has failed, it failed there.
    pub proof fn lemma_tracks(&self)
        requires
            self.wf(),
        ensures
            self.start().follows(self.delivered()),
            self.point().model.current == self.context(),
            self.spec_finished() ==> !self.spec_failed() && self.start().follows(self.stopped_at())
                && self.stopped().ended(),
            self.spec_failed() ==> self.start().follows(self.stopped_at())
                && self.stopped().failed(),
    {
    }

    /// Opens the coded `bytes` for reading, with nothing read and the
    /// context for D-residuals current. A `delta_t_max` above `MAX_DELTA_T`
    /// is refused; so is a stream without bytes, which ends before it
    /// starts.
    pub fn new(bytes: Vec<u8>, delta_t_max: DeltaT, ref_interval: DeltaT) -> (result: Result<
        Self,
        CodecError,
    >)
        ensures
            match result {
                Ok(input) => {
                    &&& delta_t_max <= MAX_DELTA_T
                    &&& bytes@.len() > 0
                    &&& input.wf()
                    &&& input.delta_t_max() == delta_t_max
                    &&& input.spec_ref_interval() == ref_interval
                    &&& input.source() == bytes@
                    &&& input.delivered() == Seq::<Symbol>::empty()
                    &&& input.context() == D_CONTEXT
                    &&& !input.spec_finished()
                    &&& !input.spec_failed()
                },
                Err(e) => if delta_t_max > MAX_DELTA_T {
                    e == CodecError::InvalidInput
                } else {
                    bytes@.len() == 0 && e == CodecError::UnexpectedEof
                },
            },
    {
        if delta_t_max > MAX_DELTA_T {
            return Err(CodecError::InvalidInput);
        }
        if bytes.len() == 0 {
            return Err(CodecError::UnexpectedEof);
        }
        let model = initial_model(delta_t_max);
        let ghost source = bytes@;
        let parts = decoder_open(model, bytes);
        proof {
            assert(parts.0@ == initial_view(delta_t_max));
            assert(sized_for(initial_tables(delta_t_max), delta_t_max));
        }
        Ok(
            CompressedInput {
                delta_t_max,
                ref_interval,
                contexts: Contexts::new(),
                parts: Some(parts),
                context: D_CONTEXT,
                finished: false,
                delivered: Ghost(Seq::empty()),
                source: Ghost(source),
                stopped_at: Ghost(Seq::empty()),
            },
        )
    }

    /// The numbers of the contexts.
    pub fn contexts(&self) -> (contexts: Contexts)
        requires
            self.wf(),
        ensures
            contexts == (Contexts {
                d_context: D_CONTEXT,
                dt_context: DT_CONTEXT,
                u8_general_context: U8_GENERAL_CONTEXT,
                eof_context: EOF_CONTEXT,
            }),
    {
        self.contexts
    }

    /// The upper bound on time deltas that the stream was opened with.
    pub fn dtm(&self) -> (delta_t_max: DeltaT)
        requires
            self.wf(),
        ensures
            delta_t_max == self.delta_t_max(),
            delta_t_max <= MAX_DELTA_T,
    {
        self.delta_t_max
    }

    /// The reference interval that the stream was opened with.
    pub fn ref_interval(&self) -> (ref_interval: DeltaT)
        ensures
            ref_interval == self.spec_ref_interval(),
    {
        self.ref_interval
    }

    /// Whether the end of the stream has been decoded.
    pub fn finished(&self) -> (finished: bool)
        ensures
            finished == self.spec_finished(),
    {
        self.finished
    }

    /// Whether reading has failed.
    pub fn failed(&self) -> (failed: bool)
        ensures
            failed == self.spec_failed(),
    {
        self.parts.is_none()
    }

    /// Makes `context` the current one for what is read next. A number
    /// that names no context is refused, and nothing changes.
    pub fn set_context(&mut self, context: usize) -> (result: Result<(), CodecError>)
        requires
            old(self).wf(),
        ensures
            final(self).wf(),
            final(self).delta_t_max() == old(self).delta_t_max(),
            final(self).spec_ref_interval() == old(self).spec_ref_interval(),
            final(self).spec_finished() == old(self).spec_finished(),
            final(self).spec_failed() == old(self).spec_failed(),
            final(self).source() == old(self).source(),
            final(self).stopped_at() == old(self).stopped_at(),
            match result {
                Ok(_) => {
                    &&& context < 4
                    &&& final(self).delivered() == old(self).delivered().push(Symbol::Context(context))
                    &&& final(self).context() == context
                    &&& old(self).point().yields(Symbol::Context(context))
                    &&& final(self).point() == old(self).point().step(Symbol::Context(context))
                },
                Err(e) => {
                    &&& context >= 4
                    &&& e == CodecError::InvalidInput
                    &&& final(self).delivered() == old(self).delivered()
                    &&& final(self).context() == old(self).context()
                },
            },
    {
        if context >= 4 {
            return Err(CodecError::InvalidInput);
        }
        proof {
            let before = self.point();
            let switch = Symbol::Context(context);
            assert(self.delivered@.push(switch).drop_last() =~= self.delivered@);
            assert(before.model.tables[before.model.current].len() >= 1);
            lemma_after_keeps_sizes(before.model, Some(switch));
            assert(sized_for(before.step(switch).model.tables, self.delta_t_max)) by {
                assert forall|c: int| 0 <= c < 4 implies (#[trigger] before.step(
                    switch,
                ).model.tables[c]).len() == alphabet_size(c, self.delta_t_max) + 1 by {
                    assert(before.model.tables[c].len() == alphabet_size(c, self.delta_t_max) + 1);
                }
            }
        }
        match self.parts.take() {
            Some((model, state)) => {
                let mut model = model;
                model.set_context(context);
                self.parts = Some((model, state));
            },
            None => {},
        }
        self.context = context;
        self.delivered = Ghost(self.delivered@.push(Symbol::Context(context)));
        Ok(())
    }

    /// Decodes the next value under the current context. `Ok(None)` is the
    /// end of the stream; once it has come, it comes again on every call
    /// and the decoder is not asked any more. After a failure to read,
    /// every call fails. Otherwise what comes is what the decoder gives
    /// where it stands.
    pub fn decode(&mut self) -> (result: Result<Option<usize>, CodecError>)
        requires
            old(self).wf(),
        ensures
            final(self).wf(),
            final(self).delta_t_max() == old(self).delta_t_max(),
            final(self).spec_ref_interval() == old(self).spec_ref_interval(),
            final(self).context() == old(self).context(),
            final(self).source() == old(self).source(),
            old(self).spec_finished() ==> {
                &&& result == Ok::<Option<usize>, CodecError>(None)
                &&& final(self).spec_finished()
                &&& final(self).spec_failed() == old(self).spec_failed()
                &&& final(self).delivered() == old(self).delivered()
                &&& final(self).stopped_at() == old(self).stopped_at()
            },
            !old(self).spec_finished() && old(self).spec_failed() ==> {
                &&& result == Err::<Option<usize>, CodecError>(CodecError::ReadFailure)
                &&& !final(self).spec_finished()
                &&& final(self).spec_failed()
                &&& final(self).delivered() == old(self).delivered()
                &&& final(self).stopped_at() == old(self).stopped_at()
            },
            !old(self).spec_finished() && !old(self).spec_failed() ==> match result {
                Ok(Some(v)) => {
                    &&& old(self).point().yields(Symbol::Value(v))
                    &&& final(self).point() == old(self).point().step(Symbol::Value(v))
                    &&& v < alphabet_size(old(self).context(), old(self).delta_t_max())
                    &&& final(self).delivered() == old(self).delivered().push(Symbol::Value(v))
                    &&& !final(self).spec_finished()
                    &&& !final(self).spec_failed()
                },
                Ok(None) => {
                    &&& old(self).point().ended()
                    &&& final(self).spec_finished()
                    &&& !final(self).spec_failed()
                    &&& final(self).delivered() == old(self).delivered()
                    &&& final(self).stopped_at() == old(self).delivered()
                },
                Err(e) => {
                    &&& old(self).point().failed()
                    &&& e == CodecError::ReadFailure
                    &&& !final(self).spec_finished()
                    &&& final(self).spec_failed()
                    &&& final(self).delivered() == old(self).delivered()
                    &&& final(self).stopped_at() == old(self).delivered()
                },
            },
    {
        if self.finished {
            return Ok(None);
        }
        match self.parts.take() {
            None => Err(CodecError::ReadFailure),
            Some((model, state)) => {
                let ghost before = self.point();
                let (outcome, model, state) = decoder_step(model, state);
                match outcome {
                    Ok(symbol) => {
                        proof {
                            assert(before.model.tables[before.model.current].len() >= 1);
                            lemma_after_keeps_sizes(before.model, symbol);
                            assert(sized_for(model@.tables, self.delta_t_max)) by {
                                assert forall|c: int| 0 <= c < 4 implies (
                                #[trigger] model@.tables[c]).len() == alphabet_size(
                                    c,
                                    self.delta_t_max,
                                ) + 1 by {
                                    assert(before.model.tables[c].len() == alphabet_size(
                                        c,
                                        self.delta_t_max,
                                    ) + 1);
                                }
                            }
                        }
                        self.parts = Some((model, state));
                        match symbol {
                            Some(Symbol::Value(v)) => {
                                proof {
                                    assert(self.delivered@.push(Symbol::Value(v)).drop_last()
                                        =~= self.delivered@);
                                }
                                self.delivered = Ghost(self.delivered@.push(Symbol::Value(v)));
                            },
                            _ => {
                                self.finished = true;
                                self.stopped_at = Ghost(self.delivered@);
                            },
                        }
                    },
                    Err(_) => {
                        self.stopped_at = Ghost(self.delivered@);
                    },
                }
                decoded_result(outcome)
            },
        }
    }
}

} // verus!
