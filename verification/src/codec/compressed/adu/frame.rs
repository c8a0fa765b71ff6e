//! An independently decodable unit of video data, laid out as it stands
//! in a stream: what is in these structs is what one gets when one
//! decodes a unit.

use vstd::prelude::*;
use crate::{AbsoluteT, DeltaT};
use crate::codec::{CodecError, CodecMetadata};
use crate::codec::compressed::adu::{
    lemma_after_prefix, lemma_append_assoc, lemma_piece_agrees, lemma_push_after,
    lemma_u16_determined, lemma_u16_symbols_injective, lemma_u32_determined,
    lemma_u32_symbols_injective, live, read_context, read_failed, read_u16, read_u32, reads_on,
    u16_symbols, u32_symbols, write_context, write_u16, write_u32, writes_on,
};
use crate::codec::compressed::adu::cube::{
    AduCube, AduCubeView, lemma_cube_determined, lemma_cube_unique,
};
use crate::codec::compressed::stream::{
    CompressedInput, CompressedOutput, DT_CONTEXT, DecoderPoint, EOF_CONTEXT, MAX_DELTA_T,
    U8_GENERAL_CONTEXT, coded_bytes, decoder_start, initial_tables, lemma_follows_one,
    lemma_follows_split,
};
use crate::codec::compressed::fenwick::context_switching::Symbol;

verus! {

/// Some cubes as they are written, one after the other.
pub open spec fn cubes_symbols(cubes: Seq<AduCubeView>, delta_t_max: DeltaT) -> Seq<Symbol>
    decreases cubes.len(),
{
    if cubes.len() == 0 {
        Seq::empty()
    } else {
        cubes_symbols(cubes.drop_last(), delta_t_max) + cubes.last().symbols(delta_t_max)
    }
}

/// What is written for some cubes is what is written for the first of
/// them, followed by what is written for the others.
pub proof fn lemma_cubes_front(cubes: Seq<AduCubeView>, delta_t_max: DeltaT)
    requires
        cubes.len() > 0,
    ensures
        cubes_symbols(cubes, delta_t_max) == cubes[0].symbols(delta_t_max) + cubes_symbols(
            cubes.skip(1),
            delta_t_max,
        ),
    decreases cubes.len(),
{
    if cubes.len() == 1 {
        assert(cubes.drop_last() =~= Seq::<AduCubeView>::empty());
        assert(cubes.skip(1) =~= Seq::<AduCubeView>::empty());
        assert(cubes_symbols(cubes, delta_t_max) =~= cubes[0].symbols(delta_t_max) + cubes_symbols(
            cubes.skip(1),
            delta_t_max,
        ));
    } else {
        lemma_cubes_front(cubes.drop_last(), delta_t_max);
        assert(cubes.drop_last().skip(1) =~= cubes.skip(1).drop_last());
        assert(cubes_symbols(cubes, delta_t_max) =~= cubes[0].symbols(delta_t_max) + cubes_symbols(
            cubes.skip(1),
            delta_t_max,
        ));
    }
}

/// Whether each of `cubes` can be written under `delta_t_max`.
pub open spec fn cubes_valid(cubes: Seq<AduCubeView>, delta_t_max: DeltaT) -> bool {
    forall|i: int| 0 <= i < cubes.len() ==> (#[trigger] cubes[i]).valid(delta_t_max)
}

/// Whether no block of `cubes` holds a time residual for a pixel without an event.
pub open spec fn cubes_canonical(cubes: Seq<AduCubeView>) -> bool {
    forall|i: int| 0 <= i < cubes.len() ==> (#[trigger] cubes[i]).canonical()
}

/// As many cubes, written alike, whatever follows them, are the same
/// cubes, and the same follows them.
pub proof fn lemma_cubes_unique(
    a: Seq<AduCubeView>,
    b: Seq<AduCubeView>,
    delta_t_max: DeltaT,
    rest_a: Seq<Symbol>,
    rest_b: Seq<Symbol>,
)
    requires
        delta_t_max <= MAX_DELTA_T,
        a.len() == b.len(),
        cubes_valid(a, delta_t_max),
        cubes_canonical(a),
        cubes_valid(b, delta_t_max),
        cubes_canonical(b),
        cubes_symbols(a, delta_t_max) + rest_a == cubes_symbols(b, delta_t_max) + rest_b,
    ensures
        a == b,
        rest_a == rest_b,
    decreases a.len(),
{
    if a.len() == 0 {
        assert(a =~= b);
        assert(rest_a =~= cubes_symbols(a, delta_t_max) + rest_a);
        assert(rest_b =~= cubes_symbols(b, delta_t_max) + rest_b);
    } else {
        lemma_cubes_front(a, delta_t_max);
        lemma_cubes_front(b, delta_t_max);
        let tail_a = cubes_symbols(a.skip(1), delta_t_max) + rest_a;
        let tail_b = cubes_symbols(b.skip(1), delta_t_max) + rest_b;
        lemma_append_assoc(
            a[0].symbols(delta_t_max),
            cubes_symbols(a.skip(1), delta_t_max),
            rest_a,
        );
        lemma_append_assoc(
            b[0].symbols(delta_t_max),
            cubes_symbols(b.skip(1), delta_t_max),
            rest_b,
        );
        assert(a[0].valid(delta_t_max) && a[0].canonical());
        assert(b[0].valid(delta_t_max) && b[0].canonical());
        lemma_cube_unique(a[0], b[0], delta_t_max, tail_a, tail_b);
        assert forall|i: int| 0 <= i < a.skip(1).len() implies (#[trigger] a.skip(1)[i]).valid(
            delta_t_max,
        ) && a.skip(1)[i].canonical() by {
            assert(a.skip(1)[i] == a[i + 1]);
        }
        assert forall|i: int| 0 <= i < b.skip(1).len() implies (#[trigger] b.skip(1)[i]).valid(
            delta_t_max,
        ) && b.skip(1)[i].canonical() by {
            assert(b.skip(1)[i] == b[i + 1]);
        }
        lemma_cubes_unique(a.skip(1), b.skip(1), delta_t_max, rest_a, rest_b);
        assert forall|i: int| 0 <= i < a.len() implies a[i] == b[i] by {
            if i > 0 {
                assert(a.skip(1)[i - 1] == a[i]);
                assert(b.skip(1)[i - 1] == b[i]);
            }
        }
        assert(a =~= b);
    }
}

/// Whether the cubes of a channel can be written under `delta_t_max`: each
/// of them can, and their number fits 16 bits.
pub open spec fn channel_valid(cubes: Seq<AduCubeView>, delta_t_max: DeltaT) -> bool {
    cubes.len() <= 0xffff && cubes_valid(cubes, delta_t_max)
}

/// A channel as it is written: the number of its cubes, and the cubes.
pub open spec fn channel_symbols(cubes: Seq<AduCubeView>, delta_t_max: DeltaT) -> Seq<Symbol> {
    seq![Symbol::Context(U8_GENERAL_CONTEXT)] + u16_symbols(cubes.len() as u16) + cubes_symbols(
        cubes,
        delta_t_max,
    )
}

/// Two channels that can be written, hold nothing for pixels without an
/// event, and are written alike, whatever follows them, are the same
/// channel, and the same follows them.
pub proof fn lemma_channel_unique(
    a: Seq<AduCubeView>,
    b: Seq<AduCubeView>,
    delta_t_max: DeltaT,
    rest_a: Seq<Symbol>,
    rest_b: Seq<Symbol>,
)
    requires
        delta_t_max <= MAX_DELTA_T,
        channel_valid(a, delta_t_max),
        cubes_canonical(a),
        channel_valid(b, delta_t_max),
        cubes_canonical(b),
        channel_symbols(a, delta_t_max) + rest_a == channel_symbols(b, delta_t_max) + rest_b,
    ensures
        a == b,
        rest_a == rest_b,
{
    let whole_a = channel_symbols(a, delta_t_max) + rest_a;
    let whole_b = channel_symbols(b, delta_t_max) + rest_b;
    assert(whole_a.subrange(1, 3) =~= u16_symbols(a.len() as u16));
    assert(whole_b.subrange(1, 3) =~= u16_symbols(b.len() as u16));
    lemma_u16_symbols_injective(a.len() as u16, b.len() as u16);
    assert(whole_a.skip(3) =~= cubes_symbols(a, delta_t_max) + rest_a);
    assert(whole_b.skip(3) =~= cubes_symbols(b, delta_t_max) + rest_b);
    lemma_cubes_unique(a, b, delta_t_max, rest_a, rest_b);
}

/// The cubes that `cubes` stand for.
pub open spec fn cube_views(cubes: Seq<AduCube>) -> Seq<AduCubeView> {
    Seq::new(cubes.len(), |i: int| cubes[i]@)
}

/// The cubes of one colour channel of a unit.
#[derive(Debug, Clone, PartialEq, Eq)]
pub struct AduChannel {
    /// The number of cubes in the channel; it is their count.
    num_cubes: u16,
    /// The cubes in the channel.
    cubes: Vec<AduCube>,
}

impl View for AduChannel {
    type V = Seq<AduCubeView>;

    closed spec fn view(&self) -> Seq<AduCubeView> {
        cube_views(self.cubes@)
    }
}

impl AduChannel {
    /// The recorded number of cubes is their count, and every cube is
    /// well-formed.
    pub closed spec fn wf(&self) -> bool {
        &&& self.num_cubes == self.cubes@.len()
        &&& forall|i: int| 0 <= i < self.cubes@.len() ==> (#[trigger] self.cubes@[i]).wf()
    }

    /// A well-formed channel has at most 65535 cubes.
    pub proof fn lemma_wf(&self)
        requires
            self.wf(),
        ensures
            self@.len() <= 0xffff,
    {
    }

    /// A channel without cubes.
    pub fn new() -> (channel: Self)
        ensures
            channel.wf(),
            channel@ == Seq::<AduCubeView>::empty(),
    {
        let channel = AduChannel { num_cubes: 0, cubes: Vec::new() };
        assert(channel@ =~= Seq::<AduCubeView>::empty());
        channel
    }

    /// Appends a cube to the channel.
    pub fn add_cube(&mut self, cube: AduCube)
        requires
            old(self).wf(),
            cube.wf(),
            old(self)@.len() < 0xffff,
        ensures
            final(self).wf(),
            final(self)@ == old(self)@.push(cube@),
    {
        self.cubes.push(cube);
        self.num_cubes = self.num_cubes + 1;
        assert(self@ =~= old(self)@.push(cube@));
    }

    /// The number of cubes in the channel.
    pub fn num_cubes(&self) -> (count: u16)
        requires
            self.wf(),
        ensures
            count == self@.len(),
    {
        self.num_cubes
    }

    /// The cubes in the channel.
    pub fn cubes(&self) -> (cubes: &Vec<AduCube>)
        ensures
            cube_views(cubes@) == self@,
            self.wf() ==> forall|i: int| 0 <= i < cubes@.len() ==> (#[trigger] cubes@[i]).wf(),
    {
        &self.cubes
    }

    /// Whether the channel can be written under `delta_t_max`.
    pub fn check(&self, delta_t_max: DeltaT) -> (valid: bool)
        requires
            self.wf(),
        ensures
            valid == channel_valid(self@, delta_t_max),
    {
        let mut i: usize = 0;
        while i < self.cubes.len()
            invariant
                self.wf(),
                i <= self.cubes@.len(),
                forall|j: int| 0 <= j < i ==> (#[trigger] self@[j]).valid(delta_t_max),
            decreases self.cubes@.len() - i,
        {
            if !self.cubes[i].check(delta_t_max) {
                assert(!self@[i as int].valid(delta_t_max));
                return false;
            }
            assert(self@[i as int].valid(delta_t_max));
            i += 1;
        }
        true
    }

    /// Writes the channel. A channel that cannot be written is refused
    /// before anything is written. The end of the stream is not written:
    /// that falls to whoever frames the unit.
    pub fn compress(&self, output: &mut CompressedOutput) -> (result: Result<(), CodecError>)
        requires
            self.wf(),
            old(output).wf(),
        ensures
            writes_on(*old(output), *final(output)),
            match result {
                Ok(_) => {
                    &&& channel_valid(self@, old(output).delta_t_max())
                    &&& final(output).symbols() == old(output).symbols() + channel_symbols(
                        self@,
                        old(output).delta_t_max(),
                    )
                },
                Err(e) => {
                    &&& e == CodecError::InvalidInput
                    &&& !channel_valid(self@, old(output).delta_t_max())
                    &&& final(output).symbols() == old(output).symbols()
                    &&& final(output).context() == old(output).context()
                },
            },
    {
        let delta_t_max = output.dtm();
        if !self.check(delta_t_max) {
            return Err(CodecError::InvalidInput);
        }
        write_context(output, U8_GENERAL_CONTEXT);
        // Write the number of cubes
        write_u16(output, self.num_cubes);
        let ghost start = output.symbols();
        // Write the cubes
        let mut i: usize = 0;
        while i < self.cubes.len()
            invariant
                self.wf(),
                i <= self.cubes@.len(),
                delta_t_max == old(output).delta_t_max(),
                channel_valid(self@, delta_t_max),
                writes_on(*old(output), *output),
                output.symbols() == start + cubes_symbols(self@.take(i as int), delta_t_max),
            decreases self.cubes@.len() - i,
        {
            assert(self@[i as int].valid(delta_t_max));
            match self.cubes[i].compress(output) {
                Ok(_) => {},
                Err(e) => {
                    return Err(e);
                },
            }
            proof {
                assert(self@.take(i + 1).drop_last() =~= self@.take(i as int));
                assert(output.symbols() =~= start + cubes_symbols(self@.take(i + 1), delta_t_max));
            }
            i += 1;
        }
        proof {
            assert(self@.take(i as int) =~= self@);
            assert(output.symbols() =~= old(output).symbols() + channel_symbols(
                self@,
                delta_t_max,
            ));
        }
        Ok(())
    }

    /// Reads a channel. What was handed out while reading is the channel
    /// as it is written. Where the decoder gives what is written for a
    /// channel, that channel is read.
    #[verifier::rlimit(80)]
    pub fn decompress(input: &mut CompressedInput) -> (result: Result<Self, CodecError>)
        requires
            old(input).wf(),
        ensures
            reads_on(*old(input), *final(input)),
            match result {
                Ok(channel) => {
                    &&& channel.wf()
                    &&& channel_valid(channel@, old(input).delta_t_max())
                    &&& cubes_canonical(channel@)
                    &&& !final(input).spec_finished()
                    &&& !final(input).spec_failed()
                    &&& final(input).delivered() == old(input).delivered() + channel_symbols(
                        channel@,
                        old(input).delta_t_max(),
                    )
                    &&& channel_read_from(
                        final(input).delivered().skip(old(input).delivered().len() as int),
                        old(input).delta_t_max(),
                    ) == Some(channel@)
                },
                Err(e) => read_failed(*final(input), e),
            },
            live(*old(input)) ==> forall|c: Seq<AduCubeView>, rest: Seq<Symbol>|
                channel_valid(c, old(input).delta_t_max()) && cubes_canonical(c) && #[trigger] old(
                    input,
                ).point().follows(channel_symbols(c, old(input).delta_t_max()) + rest) ==> (
                result matches Ok(channel) && channel@ == c) && final(input).point().follows(rest),
            live(*old(input)) && (exists|c: Seq<AduCubeView>|
                channel_valid(c, old(input).delta_t_max()) && cubes_canonical(c) && #[trigger] old(
                    input,
                ).point().follows(channel_symbols(c, old(input).delta_t_max()))) ==> result is Ok,
    {
        let ghost delta_t_max = input.delta_t_max();
        let ghost origin = input.point();
        let ghost was_live = live(*input);
        proof {
            assert forall|c: Seq<AduCubeView>| #[trigger]
                origin.follows(channel_symbols(c, delta_t_max)) implies origin.follows(
                channel_symbols(c, delta_t_max) + Seq::<Symbol>::empty(),
            ) by {
                assert(channel_symbols(c, delta_t_max) + Seq::<Symbol>::empty()
                    =~= channel_symbols(c, delta_t_max));
            }
        }
        proof {
            assert forall|c: Seq<AduCubeView>, rest: Seq<Symbol>| #[trigger]
                origin.follows(channel_symbols(c, delta_t_max) + rest) implies origin.follows(
                seq![Symbol::Context(U8_GENERAL_CONTEXT)] + (u16_symbols(c.len() as u16) + (
                cubes_symbols(c.skip(0), delta_t_max) + rest)),
            ) by {
                assert(c.skip(0) =~= c);
                assert(channel_symbols(c, delta_t_max) + rest =~= seq![
                    Symbol::Context(U8_GENERAL_CONTEXT),
                ] + (u16_symbols(c.len() as u16) + (cubes_symbols(c, delta_t_max) + rest)));
            }
        }
        read_context(input, U8_GENERAL_CONTEXT);
        // Read the number of cubes
        let num_cubes = read_u16(input)?;
        let ghost start = input.delivered();
        // Read the cubes
        let mut cubes: Vec<AduCube> = Vec::new();
        let mut i: u16 = 0;
        proof {
            if was_live {
                assert forall|c: Seq<AduCubeView>, rest: Seq<Symbol>|
                    channel_valid(c, delta_t_max) && cubes_canonical(c) && #[trigger] origin.follows(
                        channel_symbols(c, delta_t_max) + rest,
                    ) implies c.len() == num_cubes && cube_views(cubes@) == c.take(0)
                    && input.point().follows(cubes_symbols(c.skip(0), delta_t_max) + rest) by {
                    assert(cube_views(cubes@) =~= c.take(0));
                }
            }
        }
        while i < num_cubes
            invariant
                i <= num_cubes,
                cubes@.len() == i,
                delta_t_max == old(input).delta_t_max(),
                reads_on(*old(input), *input),
                !input.spec_finished(),
                !input.spec_failed(),
                forall|j: int| 0 <= j < cubes@.len() ==> (#[trigger] cubes@[j]).wf(),
                cubes_valid(cube_views(cubes@), delta_t_max),
                cubes_canonical(cube_views(cubes@)),
                input.delivered() == start + cubes_symbols(cube_views(cubes@), delta_t_max),
                was_live == live(*old(input)),
                origin == old(input).point(),
                forall|c: Seq<AduCubeView>| #[trigger]
                    origin.follows(channel_symbols(c, delta_t_max)) ==> origin.follows(
                        channel_symbols(c, delta_t_max) + Seq::<Symbol>::empty(),
                    ),
                was_live ==> forall|c: Seq<AduCubeView>, rest: Seq<Symbol>|
                    channel_valid(c, delta_t_max) && cubes_canonical(c) && #[trigger] origin.follows(
                        channel_symbols(c, delta_t_max) + rest,
                    ) ==> c.len() == num_cubes && cube_views(cubes@) == c.take(i as int)
                        && input.point().follows(
                        cubes_symbols(c.skip(i as int), delta_t_max) + rest,
                    ),
            decreases num_cubes - i,
        {
            let ghost here = input.point();
            proof {
                if was_live {
                    assert forall|c: Seq<AduCubeView>, rest: Seq<Symbol>|
                        channel_valid(c, delta_t_max) && cubes_canonical(c) && #[trigger] origin.follows(
                            channel_symbols(c, delta_t_max) + rest,
                        ) implies c[i as int].valid(delta_t_max) && c[i as int].canonical()
                        && here.follows(
                        c[i as int].symbols(delta_t_max) + (cubes_symbols(
                            c.skip(i + 1),
                            delta_t_max,
                        ) + rest),
                    ) by {
                        lemma_cubes_next(c, i as int, delta_t_max, rest);
                    }
                }
            }
            let cube = AduCube::decompress(input)?;
            let ghost before = cubes@;
            cubes.push(cube);
            proof {
                assert(cube_views(cubes@).drop_last() =~= cube_views(before));
                assert(cube_views(cubes@).last() == cube@);
                assert forall|j: int| 0 <= j < cubes@.len() implies (#[trigger] cube_views(
                    cubes@,
                )[j]).valid(delta_t_max) && cube_views(cubes@)[j].canonical() by {
                    if j < before.len() {
                        assert(cube_views(cubes@)[j] == cube_views(before)[j]);
                    }
                }
                assert(input.delivered() =~= start + cubes_symbols(
                    cube_views(cubes@),
                    delta_t_max,
                ));
                if was_live {
                    assert forall|c: Seq<AduCubeView>, rest: Seq<Symbol>|
                        channel_valid(c, delta_t_max) && cubes_canonical(c) && #[trigger] origin.follows(
                            channel_symbols(c, delta_t_max) + rest,
                        ) implies cube_views(cubes@) == c.take(i + 1) && input.point().follows(
                        cubes_symbols(c.skip(i + 1), delta_t_max) + rest,
                    ) by {
                        assert(here.follows(
                            c[i as int].symbols(delta_t_max) + (cubes_symbols(
                                c.skip(i + 1),
                                delta_t_max,
                            ) + rest),
                        ));
                        assert(cube_views(before) == c.take(i as int));
                        assert(cube_views(cubes@) =~= c.take(i + 1));
                    }
                }
            }
            i += 1;
        }
        let channel = AduChannel { num_cubes, cubes };
        proof {
            let written = channel_symbols(channel@, delta_t_max);
            assert(input.delivered() =~= old(input).delivered() + written);
            lemma_after_prefix(old(input).delivered(), written);
            input.lemma_wf();
            lemma_channel_decode_inverts_encode(channel@, input.delta_t_max());
            if was_live {
                assert forall|c: Seq<AduCubeView>, rest: Seq<Symbol>|
                    channel_valid(c, delta_t_max) && cubes_canonical(c) && #[trigger] origin.follows(
                        channel_symbols(c, delta_t_max) + rest,
                    ) implies channel@ == c && input.point().follows(rest) by {
                    assert(c.take(i as int) =~= c);
                    assert(c.skip(i as int) =~= Seq::<AduCubeView>::empty());
                    assert(cubes_symbols(c.skip(i as int), delta_t_max) + rest =~= rest);
                }
            }
        }
        Ok(channel)
    }
}

/// What is written for the cubes from index `i` on, followed by `rest`,
/// begins with what is written for the cube at index `i`.
pub proof fn lemma_cubes_next(
    cubes: Seq<AduCubeView>,
    i: int,
    delta_t_max: DeltaT,
    rest: Seq<Symbol>,
)
    requires
        0 <= i < cubes.len(),
    ensures
        cubes_symbols(cubes.skip(i), delta_t_max) + rest == cubes[i].symbols(delta_t_max) + (
        cubes_symbols(cubes.skip(i + 1), delta_t_max) + rest),
{
    lemma_cubes_front(cubes.skip(i), delta_t_max);
    assert(cubes.skip(i).skip(1) =~= cubes.skip(i + 1));
    lemma_append_assoc(
        cubes[i].symbols(delta_t_max),
        cubes_symbols(cubes.skip(i + 1), delta_t_max),
        rest,
    );
}

/// The colour channels of a unit.
#[derive(Debug, Clone, Copy, PartialEq, Eq)]
pub enum AduChannelType {
    R,
    G,
    B,
}

/// A unit as the time of its first event and the cubes of its channels.
pub ghost struct AduView {
    pub head_event_t: AbsoluteT,
    pub cubes_r: Seq<AduCubeView>,
    pub cubes_g: Seq<AduCubeView>,
    pub cubes_b: Seq<AduCubeView>,
}

impl AduView {
    /// Whether the unit can be written under `delta_t_max`.
    pub open spec fn valid(self, delta_t_max: DeltaT) -> bool {
        &&& channel_valid(self.cubes_r, delta_t_max)
        &&& channel_valid(self.cubes_g, delta_t_max)
        &&& channel_valid(self.cubes_b, delta_t_max)
    }

    /// Whether no block of the unit holds a time residual for a pixel
    /// without an event.
    pub open spec fn canonical(self) -> bool {
        &&& cubes_canonical(self.cubes_r)
        &&& cubes_canonical(self.cubes_g)
        &&& cubes_canonical(self.cubes_b)
    }

    /// The unit as it is written, before the end of the stream: the time
    /// of its first event, then the red, the green and the blue channel.
    pub open spec fn symbols(self, delta_t_max: DeltaT) -> Seq<Symbol> {
        seq![Symbol::Context(U8_GENERAL_CONTEXT)] + u32_symbols(self.head_event_t)
            + channel_symbols(self.cubes_r, delta_t_max) + channel_symbols(
            self.cubes_g,
            delta_t_max,
        ) + channel_symbols(self.cubes_b, delta_t_max)
    }
}

/// Decoding inverts encoding: two units that can be written, hold nothing
/// for pixels without an event, and are written alike, whatever follows
/// them, are the same unit. So a reader that is handed what was written
/// for a unit can only come back with that unit.
pub proof fn lemma_adu_unique(
    a: AduView,
    b: AduView,
    delta_t_max: DeltaT,
    rest_a: Seq<Symbol>,
    rest_b: Seq<Symbol>,
)
    requires
        delta_t_max <= MAX_DELTA_T,
        a.valid(delta_t_max),
        a.canonical(),
        b.valid(delta_t_max),
        b.canonical(),
        a.symbols(delta_t_max) + rest_a == b.symbols(delta_t_max) + rest_b,
    ensures
        a == b,
        rest_a == rest_b,
{
    let red_a = channel_symbols(a.cubes_r, delta_t_max);
    let red_b = channel_symbols(b.cubes_r, delta_t_max);
    let green_a = channel_symbols(a.cubes_g, delta_t_max);
    let green_b = channel_symbols(b.cubes_g, delta_t_max);
    let blue_a = channel_symbols(a.cubes_b, delta_t_max);
    let blue_b = channel_symbols(b.cubes_b, delta_t_max);
    let after_head_a = red_a + (green_a + (blue_a + rest_a));
    let after_head_b = red_b + (green_b + (blue_b + rest_b));
    lemma_adu_symbols_nested(
        seq![Symbol::Context(U8_GENERAL_CONTEXT)] + u32_symbols(a.head_event_t),
        red_a,
        green_a,
        blue_a,
        rest_a,
    );
    lemma_adu_symbols_nested(
        seq![Symbol::Context(U8_GENERAL_CONTEXT)] + u32_symbols(b.head_event_t),
        red_b,
        green_b,
        blue_b,
        rest_b,
    );
    lemma_head_times_unique(a.head_event_t, b.head_event_t, after_head_a, after_head_b);
    lemma_three_channels_unique(
        a.cubes_r,
        b.cubes_r,
        a.cubes_g,
        b.cubes_g,
        a.cubes_b,
        b.cubes_b,
        delta_t_max,
        rest_a,
        rest_b,
    );
}

proof fn lemma_head_times_unique(
    time_a: AbsoluteT,
    time_b: AbsoluteT,
    tail_a: Seq<Symbol>,
    tail_b: Seq<Symbol>,
)
    requires
        (seq![Symbol::Context(U8_GENERAL_CONTEXT)] + u32_symbols(time_a)) + tail_a == (
        seq![Symbol::Context(U8_GENERAL_CONTEXT)] + u32_symbols(time_b)) + tail_b,
    ensures
        time_a == time_b,
        tail_a == tail_b,
{
    let head_a = seq![Symbol::Context(U8_GENERAL_CONTEXT)] + u32_symbols(time_a);
    let head_b = seq![Symbol::Context(U8_GENERAL_CONTEXT)] + u32_symbols(time_b);
    assert(head_a.len() == 5 && head_b.len() == 5);
    lemma_after_prefix(head_a, tail_a);
    lemma_after_prefix(head_b, tail_b);
    assert(u32_symbols(time_a) =~= head_a.skip(1));
    assert(u32_symbols(time_b) =~= head_b.skip(1));
    lemma_u32_symbols_injective(time_a, time_b);
}

proof fn lemma_three_channels_unique(
    red_a: Seq<AduCubeView>,
    red_b: Seq<AduCubeView>,
    green_a: Seq<AduCubeView>,
    green_b: Seq<AduCubeView>,
    blue_a: Seq<AduCubeView>,
    blue_b: Seq<AduCubeView>,
    delta_t_max: DeltaT,
    rest_a: Seq<Symbol>,
    rest_b: Seq<Symbol>,
)
    requires
        delta_t_max <= MAX_DELTA_T,
        channel_valid(red_a, delta_t_max) && cubes_canonical(red_a),
        channel_valid(red_b, delta_t_max) && cubes_canonical(red_b),
        channel_valid(green_a, delta_t_max) && cubes_canonical(green_a),
        channel_valid(green_b, delta_t_max) && cubes_canonical(green_b),
        channel_valid(blue_a, delta_t_max) && cubes_canonical(blue_a),
        channel_valid(blue_b, delta_t_max) && cubes_canonical(blue_b),
        channel_symbols(red_a, delta_t_max) + (channel_symbols(green_a, delta_t_max) + (
        channel_symbols(blue_a, delta_t_max) + rest_a)) == channel_symbols(red_b, delta_t_max) + (
        channel_symbols(green_b, delta_t_max) + (channel_symbols(blue_b, delta_t_max) + rest_b)),
    ensures
        red_a == red_b,
        green_a == green_b,
        blue_a == blue_b,
        rest_a == rest_b,
{
    let after_green_a = channel_symbols(blue_a, delta_t_max) + rest_a;
    let after_green_b = channel_symbols(blue_b, delta_t_max) + rest_b;
    let after_red_a = channel_symbols(green_a, delta_t_max) + after_green_a;
    let after_red_b = channel_symbols(green_b, delta_t_max) + after_green_b;
    lemma_channel_unique(red_a, red_b, delta_t_max, after_red_a, after_red_b);
    lemma_channel_unique(green_a, green_b, delta_t_max, after_green_a, after_green_b);
    lemma_channel_unique(blue_a, blue_b, delta_t_max, rest_a, rest_b);
}

/// What is written for a unit, followed by `rest`, part by part.
pub proof fn lemma_adu_nested(a: AduView, delta_t_max: DeltaT, rest: Seq<Symbol>)
    ensures
        a.symbols(delta_t_max) + rest == seq![Symbol::Context(U8_GENERAL_CONTEXT)] + (u32_symbols(
            a.head_event_t,
        ) + (channel_symbols(a.cubes_r, delta_t_max) + (channel_symbols(a.cubes_g, delta_t_max) + (
        channel_symbols(a.cubes_b, delta_t_max) + rest)))),
{
    let red = channel_symbols(a.cubes_r, delta_t_max);
    let green = channel_symbols(a.cubes_g, delta_t_max);
    let blue = channel_symbols(a.cubes_b, delta_t_max);
    let time = u32_symbols(a.head_event_t);
    let switch = seq![Symbol::Context(U8_GENERAL_CONTEXT)];
    assert(switch + time + red + green + blue + rest =~= switch + (time + (red + (green + (blue
        + rest)))));
}

/// What has been written or handed out after the parts of a unit, one
/// after the other, is what is written for the unit.
proof fn lemma_adu_assembled(adu: AduView, before: Seq<Symbol>, delta_t_max: DeltaT)
    ensures
        before.push(Symbol::Context(U8_GENERAL_CONTEXT)) + u32_symbols(adu.head_event_t)
            + channel_symbols(adu.cubes_r, delta_t_max) + channel_symbols(
            adu.cubes_g,
            delta_t_max,
        ) + channel_symbols(adu.cubes_b, delta_t_max) == before + adu.symbols(delta_t_max),
{
    let red = channel_symbols(adu.cubes_r, delta_t_max);
    let green = channel_symbols(adu.cubes_g, delta_t_max);
    let blue = channel_symbols(adu.cubes_b, delta_t_max);
    let time = u32_symbols(adu.head_event_t);
    assert(before.push(Symbol::Context(U8_GENERAL_CONTEXT)) + time + red + green + blue =~= before
        + (seq![Symbol::Context(U8_GENERAL_CONTEXT)] + time + red + green + blue));
}

/// What a reader has handed out after the parts of a unit, one after the
/// other, is what is written for the unit, and is read back as that unit.
proof fn lemma_adu_read_back(adu: AduView, before: Seq<Symbol>, delta_t_max: DeltaT)
    requires
        delta_t_max <= MAX_DELTA_T,
        adu.valid(delta_t_max),
        adu.canonical(),
    ensures
        before.push(Symbol::Context(U8_GENERAL_CONTEXT)) + u32_symbols(adu.head_event_t)
            + channel_symbols(adu.cubes_r, delta_t_max) + channel_symbols(
            adu.cubes_g,
            delta_t_max,
        ) + channel_symbols(adu.cubes_b, delta_t_max) == before + adu.symbols(delta_t_max),
        adu_read_from((before + adu.symbols(delta_t_max)).skip(before.len() as int), delta_t_max)
            == Some(adu),
{
    let red = channel_symbols(adu.cubes_r, delta_t_max);
    let green = channel_symbols(adu.cubes_g, delta_t_max);
    let blue = channel_symbols(adu.cubes_b, delta_t_max);
    let time = u32_symbols(adu.head_event_t);
    assert(before.push(Symbol::Context(U8_GENERAL_CONTEXT)) + time + red + green + blue =~= before
        + (seq![Symbol::Context(U8_GENERAL_CONTEXT)] + time + red + green + blue));
    lemma_after_prefix(before, adu.symbols(delta_t_max));
    lemma_adu_decode_inverts_encode(adu, delta_t_max);
}

proof fn lemma_adu_symbols_nested(
    head: Seq<Symbol>,
    red: Seq<Symbol>,
    green: Seq<Symbol>,
    blue: Seq<Symbol>,
    rest: Seq<Symbol>,
)
    ensures
        head + red + green + blue + rest == head + (red + (green + (blue + rest))),
{
    assert(head + red + green + blue + rest =~= head + (red + (green + (blue + rest))));
}

/// A whole spatial frame of data.
#[derive(Debug, Clone, PartialEq, Eq)]
pub struct Adu {
    /// The timestamp of the first event in the ADU.
    head_event_t: AbsoluteT,
    cubes_r: AduChannel,
    cubes_g: AduChannel,
    cubes_b: AduChannel,
}

impl View for Adu {
    type V = AduView;

    closed spec fn view(&self) -> AduView {
        AduView {
            head_event_t: self.head_event_t,
            cubes_r: self.cubes_r@,
            cubes_g: self.cubes_g@,
            cubes_b: self.cubes_b@,
        }
    }
}

impl Adu {
    /// Each channel is well-formed.
    pub closed spec fn wf(&self) -> bool {
        self.cubes_r.wf() && self.cubes_g.wf() && self.cubes_b.wf()
    }

    /// A unit without cubes, whose first event is at time 0.
    pub fn new() -> (adu: Self)
        ensures
            adu.wf(),
            adu@ == (AduView {
                head_event_t: 0,
                cubes_r: Seq::<AduCubeView>::empty(),
                cubes_g: Seq::<AduCubeView>::empty(),
                cubes_b: Seq::<AduCubeView>::empty(),
            }),
    {
        Self {
            head_event_t: 0,
            cubes_r: AduChannel::new(),
            cubes_g: AduChannel::new(),
            cubes_b: AduChannel::new(),
        }
    }

    /// The cubes of `channel`.
    pub open spec fn channel(view: AduView, channel: AduChannelType) -> Seq<AduCubeView> {
        match channel {
            AduChannelType::R => view.cubes_r,
            AduChannelType::G => view.cubes_g,
            AduChannelType::B => view.cubes_b,
        }
    }

    /// Appends a cube to one of the channels. The other channels and the
    /// time of the first event stay as they are.
    pub fn add_cube(&mut self, cube: AduCube, channel: AduChannelType)
        requires
            old(self).wf(),
            cube.wf(),
            Self::channel(old(self)@, channel).len() < 0xffff,
        ensures
            final(self).wf(),
            final(self)@ == match channel {
                AduChannelType::R => AduView { cubes_r: old(self)@.cubes_r.push(cube@), ..old(self)@ },
                AduChannelType::G => AduView { cubes_g: old(self)@.cubes_g.push(cube@), ..old(self)@ },
                AduChannelType::B => AduView { cubes_b: old(self)@.cubes_b.push(cube@), ..old(self)@ },
            },
    {
        match channel {
            AduChannelType::R => {
                self.cubes_r.add_cube(cube);
            },
            AduChannelType::G => {
                self.cubes_g.add_cube(cube);
            },
            AduChannelType::B => {
                self.cubes_b.add_cube(cube);
            },
        }
    }

    /// The timestamp of the first event in the unit.
    pub fn head_event_t(&self) -> (t: AbsoluteT)
        ensures
            t == self@.head_event_t,
    {
        self.head_event_t
    }

    /// Sets the timestamp of the first event in the unit.
    pub fn set_head_event_t(&mut self, t: AbsoluteT)
        ensures
            final(self)@ == (AduView { head_event_t: t, ..old(self)@ }),
            old(self).wf() ==> final(self).wf(),
    {
        self.head_event_t = t;
    }

    /// The red channel, and that of a source without colour.
    pub fn cubes_r(&self) -> (channel: &AduChannel)
        ensures
            channel@ == self@.cubes_r,
            self.wf() ==> channel.wf(),
    {
        &self.cubes_r
    }

    /// The green channel.
    pub fn cubes_g(&self) -> (channel: &AduChannel)
        ensures
            channel@ == self@.cubes_g,
            self.wf() ==> channel.wf(),
    {
        &self.cubes_g
    }

    /// The blue channel.
    pub fn cubes_b(&self) -> (channel: &AduChannel)
        ensures
            channel@ == self@.cubes_b,
            self.wf() ==> channel.wf(),
    {
        &self.cubes_b
    }

    /// Writes the unit, without the end of the stream. A unit that cannot
    /// be written is refused before anything is written.
    pub fn write_to(&self, output: &mut CompressedOutput) -> (result: Result<(), CodecError>)
        requires
            self.wf(),
            old(output).wf(),
        ensures
            writes_on(*old(output), *final(output)),
            match result {
                Ok(_) => {
                    &&& self@.valid(old(output).delta_t_max())
                    &&& final(output).symbols() == old(output).symbols() + self@.symbols(
                        old(output).delta_t_max(),
                    )
                },
                Err(e) => {
                    &&& e == CodecError::InvalidInput
                    &&& !self@.valid(old(output).delta_t_max())
                    &&& final(output).symbols() == old(output).symbols()
                    &&& final(output).context() == old(output).context()
                },
            },
    {
        let delta_t_max = output.dtm();
        if !(self.cubes_r.check(delta_t_max) && self.cubes_g.check(delta_t_max)
            && self.cubes_b.check(delta_t_max)) {
            return Err(CodecError::InvalidInput);
        }
        write_context(output, U8_GENERAL_CONTEXT);
        write_u32(output, self.head_event_t);
        match self.cubes_r.compress(output) {
            Ok(_) => {},
            Err(e) => {
                return Err(e);
            },
        }
        match self.cubes_g.compress(output) {
            Ok(_) => {},
            Err(e) => {
                return Err(e);
            },
        }
        match self.cubes_b.compress(output) {
            Ok(_) => {},
            Err(e) => {
                return Err(e);
            },
        }
        proof {
            lemma_adu_assembled(self@, old(output).symbols(), delta_t_max);
        }
        Ok(())
    }

    /// Reads a unit, without the end of the stream. What was handed out
    /// while reading is the unit as it is written. Where the stream has
    /// neither ended nor failed and the decoder gives what is written for a
    /// unit, that unit is read.
    pub fn read_from(input: &mut CompressedInput) -> (result: Result<Self, CodecError>)
        requires
            old(input).wf(),
        ensures
            reads_on(*old(input), *final(input)),
            match result {
                Ok(adu) => {
                    &&& adu.wf()
                    &&& adu@.valid(old(input).delta_t_max())
                    &&& adu@.canonical()
                    &&& !final(input).spec_finished()
                    &&& !final(input).spec_failed()
                    &&& final(input).delivered() == old(input).delivered() + adu@.symbols(
                        old(input).delta_t_max(),
                    )
                    &&& adu_read_from(
                        final(input).delivered().skip(old(input).delivered().len() as int),
                        old(input).delta_t_max(),
                    ) == Some(adu@)
                },
                Err(e) => read_failed(*final(input), e),
            },
            live(*old(input)) ==> forall|a: AduView, rest: Seq<Symbol>|
                a.valid(old(input).delta_t_max()) && a.canonical() && #[trigger] old(
                    input,
                ).point().follows(a.symbols(old(input).delta_t_max()) + rest) ==> (result matches Ok(
                    adu,
                ) && adu@ == a) && final(input).point().follows(rest),
            live(*old(input)) && (exists|a: AduView|
                a.valid(old(input).delta_t_max()) && a.canonical() && #[trigger] old(
                    input,
                ).point().follows(a.symbols(old(input).delta_t_max()))) ==> result is Ok,
    {
        let ghost origin = input.point();
        let ghost delta_t_max = input.delta_t_max();
        proof {
            assert forall|a: AduView| #[trigger]
                origin.follows(a.symbols(delta_t_max)) implies origin.follows(
                a.symbols(delta_t_max) + Seq::<Symbol>::empty(),
            ) by {
                assert(a.symbols(delta_t_max) + Seq::<Symbol>::empty() =~= a.symbols(delta_t_max));
            }
        }
        proof {
            assert forall|a: AduView, rest: Seq<Symbol>| #[trigger]
                origin.follows(a.symbols(delta_t_max) + rest) implies origin.follows(
                seq![Symbol::Context(U8_GENERAL_CONTEXT)] + (u32_symbols(a.head_event_t) + (
                channel_symbols(a.cubes_r, delta_t_max) + (channel_symbols(
                    a.cubes_g,
                    delta_t_max,
                ) + (channel_symbols(a.cubes_b, delta_t_max) + rest)))),
            ) by {
                lemma_adu_nested(a, delta_t_max, rest);
            }
        }
        read_context(input, U8_GENERAL_CONTEXT);
        let head_event_t = read_u32(input)?;
        let cubes_r = AduChannel::decompress(input)?;
        let cubes_g = AduChannel::decompress(input)?;
        let cubes_b = AduChannel::decompress(input)?;
        let adu = Adu { head_event_t, cubes_r, cubes_g, cubes_b };
        proof {
            input.lemma_wf();
            lemma_adu_read_back(adu@, old(input).delivered(), input.delta_t_max());
        }
        Ok(adu)
    }

    /// Reads a unit and the end of the stream after it. Where the stream
    /// has neither ended nor failed and the decoder gives what is written
    /// for a unit and then ends, that unit is read.
    pub fn read_unit(input: &mut CompressedInput) -> (result: Result<Self, CodecError>)
        requires
            old(input).wf(),
        ensures
            reads_on(*old(input), *final(input)),
            match result {
                Ok(adu) => {
                    &&& adu.wf()
                    &&& adu@.valid(old(input).delta_t_max())
                    &&& adu@.canonical()
                    &&& final(input).spec_finished()
                    &&& !final(input).spec_failed()
                    &&& final(input).delivered() == old(input).delivered() + adu@.symbols(
                        old(input).delta_t_max(),
                    ).push(Symbol::Context(EOF_CONTEXT))
                    &&& final(input).stopped_at() == final(input).delivered()
                },
                Err(e) => read_failed(*final(input), e),
            },
            live(*old(input)) ==> forall|a: AduView|
                a.valid(old(input).delta_t_max()) && a.canonical() && #[trigger] old(
                    input,
                ).point().follows(
                    a.symbols(old(input).delta_t_max()) + seq![Symbol::Context(EOF_CONTEXT)],
                ) && old(input).point().after_all(
                    a.symbols(old(input).delta_t_max()) + seq![Symbol::Context(EOF_CONTEXT)],
                ).ended() ==> (result matches Ok(adu) && adu@ == a),
            live(*old(input)) && (exists|a: AduView|
                a.valid(old(input).delta_t_max()) && a.canonical() && #[trigger] old(
                    input,
                ).point().follows(
                    a.symbols(old(input).delta_t_max()) + seq![Symbol::Context(EOF_CONTEXT)],
                ) && old(input).point().after_all(
                    a.symbols(old(input).delta_t_max()) + seq![Symbol::Context(EOF_CONTEXT)],
                ).ended()) ==> result is Ok,
    {
        let ghost origin = input.point();
        let ghost was_live = live(*input);
        let ghost delta_t_max = input.delta_t_max();
        let adu = Adu::read_from(input)?;
        let ghost middle = input.point();
        proof {
            let written = adu@.symbols(delta_t_max);
            lemma_follows_split(input.start(), old(input).delivered(), written);
            assert(middle == origin.after_all(written));
        }
        read_context(input, EOF_CONTEXT);
        proof {
            lemma_push_after(
                old(input).delivered(),
                adu@.symbols(input.delta_t_max()),
                Symbol::Context(EOF_CONTEXT),
            );
            if was_live {
                assert forall|a: AduView|
                    a.valid(delta_t_max) && a.canonical() && #[trigger] origin.follows(
                        a.symbols(delta_t_max) + seq![Symbol::Context(EOF_CONTEXT)],
                    ) && origin.after_all(
                        a.symbols(delta_t_max) + seq![Symbol::Context(EOF_CONTEXT)],
                    ).ended() implies adu@ == a && input.point().ended() by {
                    lemma_follows_split(
                        origin,
                        a.symbols(delta_t_max),
                        seq![Symbol::Context(EOF_CONTEXT)],
                    );
                    lemma_follows_one(middle, Symbol::Context(EOF_CONTEXT));
                }
            }
        }
        match input.decode() {
            Ok(None) => Ok(adu),
            Ok(Some(_)) => Err(CodecError::CorruptStream),
            Err(e) => Err(e),
        }
    }

    /// Encodes the unit: the time of its first event, the three channels,
    /// and the end of the stream, coded by the arithmetic coder under the
    /// contexts of their parts. A unit that cannot be written, and a
    /// `delta_t_max` without a table, are refused; every other unit is
    /// coded.
    pub fn compress(&self, meta: CodecMetadata) -> (result: Result<Vec<u8>, CodecError>)
        requires
            self.wf(),
        ensures
            match result {
                Ok(bytes) => {
                    &&& meta.delta_t_max <= MAX_DELTA_T
                    &&& self@.valid(meta.delta_t_max)
                    &&& bytes@ == coded_bytes(
                        initial_tables(meta.delta_t_max),
                        0,
                        self@.symbols(meta.delta_t_max).push(Symbol::Context(EOF_CONTEXT)),
                    )
                },
                Err(e) => {
                    &&& e == CodecError::InvalidInput
                    &&& meta.delta_t_max > MAX_DELTA_T || !self@.valid(meta.delta_t_max)
                },
            },
    {
        let mut output = CompressedOutput::new(meta)?;
        self.write_to(&mut output)?;
        assert(output.symbols() =~= self@.symbols(meta.delta_t_max));
        output.into_writer()
    }

    /// Decodes a unit from `bytes`. A `delta_t_max` without a table and a
    /// stream without bytes are refused. Otherwise the unit that comes back
    /// is the one that the bytes spell: the decoder gives its symbols for
    /// them, and the end of the stream after those. Bytes that spell a unit
    /// are decoded to it, and they spell no other. An error says where the
    /// decoder stopped: at the end of the stream, at a failure to read, or
    /// at a value that fits no unit.
    pub fn decompress(bytes: Vec<u8>, delta_t_max: DeltaT, ref_interval: DeltaT) -> (result: Result<
        Self,
        CodecError,
    >)
        ensures
            match result {
                Ok(adu) => {
                    &&& delta_t_max <= MAX_DELTA_T
                    &&& bytes@.len() > 0
                    &&& adu.wf()
                    &&& adu_spelled_by(bytes@, delta_t_max, adu@)
                },
                Err(e) => if delta_t_max > MAX_DELTA_T {
                    e == CodecError::InvalidInput
                } else if bytes@.len() == 0 {
                    e == CodecError::UnexpectedEof
                } else {
                    exists|trace: Seq<Symbol>| #[trigger]
                        decoding_stopped(bytes@, delta_t_max, trace, e)
                },
            },
            delta_t_max <= MAX_DELTA_T && bytes@.len() > 0 ==> forall|a: AduView| #[trigger]
                adu_spelled_by(bytes@, delta_t_max, a) ==> (result matches Ok(adu) && adu@ == a),
            result is Ok <==> delta_t_max <= MAX_DELTA_T && bytes@.len() > 0 && exists|a: AduView|
                #[trigger] adu_spelled_by(bytes@, delta_t_max, a),
    {
        let mut input = CompressedInput::new(bytes, delta_t_max, ref_interval)?;
        proof {
            assert(input.delivered().len() == 0);
            assert(input.point() == decoder_start(bytes@, delta_t_max));
            assert forall|a: AduView| #[trigger]
                adu_spelled_by(bytes@, delta_t_max, a) implies a.valid(delta_t_max)
                && a.canonical() && input.point().follows(
                a.symbols(delta_t_max) + seq![Symbol::Context(EOF_CONTEXT)],
            ) && input.point().after_all(
                a.symbols(delta_t_max) + seq![Symbol::Context(EOF_CONTEXT)],
            ).ended() by {
                assert(a.symbols(delta_t_max).push(Symbol::Context(EOF_CONTEXT)) =~= a.symbols(
                    delta_t_max,
                ) + seq![Symbol::Context(EOF_CONTEXT)]);
            }
        }
        let result = Adu::read_unit(&mut input);
        proof {
            input.lemma_tracks();
            if result is Ok {
                assert(input.delivered() =~= result->Ok_0@.symbols(delta_t_max).push(
                    Symbol::Context(EOF_CONTEXT),
                ));
            } else if result->Err_0 == CodecError::CorruptStream {
                assert(decoding_stopped(bytes@, delta_t_max, input.delivered(), result->Err_0));
            } else {
                assert(decoding_stopped(bytes@, delta_t_max, input.stopped_at(), result->Err_0));
            }
        }
        result
    }
}

/// Whether `bytes` spell the unit `adu`: the unit is one that comes out of
/// a stream, and a decoder that is opened over the bytes, with the model
/// that a stream starts with, gives the values that are written for the
/// unit, each under the context that it is written under, and after them
/// the end of the stream.
pub open spec fn adu_spelled_by(bytes: Seq<u8>, delta_t_max: DeltaT, adu: AduView) -> bool {
    let trace = adu.symbols(delta_t_max).push(Symbol::Context(EOF_CONTEXT));
    &&& adu.valid(delta_t_max)
    &&& adu.canonical()
    &&& decoder_start(bytes, delta_t_max).follows(trace)
    &&& decoder_start(bytes, delta_t_max).after_all(trace).ended()
}

/// Whether a decoder that is opened over `bytes` gives `trace` and then
/// stops with the error `e`: the end of the stream comes, or reading
/// fails, or the last value of `trace` is a time residual that no block
/// can hold or a value where the stream had to end.
pub open spec fn decoding_stopped(
    bytes: Seq<u8>,
    delta_t_max: DeltaT,
    trace: Seq<Symbol>,
    e: CodecError,
) -> bool {
    let start = decoder_start(bytes, delta_t_max);
    let point = start.after_all(trace);
    &&& start.follows(trace)
    &&& match e {
        CodecError::PrematureEof => point.ended(),
        CodecError::ReadFailure => point.failed(),
        CodecError::CorruptStream => {
            &&& trace.len() > 0
            &&& trace.last() matches Symbol::Value(v) && {
                ||| point.model.current == DT_CONTEXT && !(-32768 <= v - delta_t_max <= 32767)
                ||| point.model.current == EOF_CONTEXT
            }
        },
        _ => false,
    }
}

/// Whether `cubes` are a channel that comes out of a stream and is written
/// as `symbols`.
pub open spec fn channel_written_as(
    cubes: Seq<AduCubeView>,
    symbols: Seq<Symbol>,
    delta_t_max: DeltaT,
) -> bool {
    channel_valid(cubes, delta_t_max) && cubes_canonical(cubes) && channel_symbols(
        cubes,
        delta_t_max,
    ) == symbols
}

/// The channel that is written as `symbols`, if there is one.
#[verifier::opaque]
pub open spec fn channel_read_from(symbols: Seq<Symbol>, delta_t_max: DeltaT) -> Option<
    Seq<AduCubeView>,
> {
    if exists|cubes: Seq<AduCubeView>| channel_written_as(cubes, symbols, delta_t_max) {
        Some(choose|cubes: Seq<AduCubeView>| channel_written_as(cubes, symbols, delta_t_max))
    } else {
        None
    }
}

/// Decoding inverts encoding: what is written for a channel is read back
/// as that channel, if the channel can be written and holds no time
/// residual for a pixel without an event.
pub proof fn lemma_channel_decode_inverts_encode(cubes: Seq<AduCubeView>, delta_t_max: DeltaT)
    requires
        delta_t_max <= MAX_DELTA_T,
        channel_valid(cubes, delta_t_max),
        cubes_canonical(cubes),
    ensures
        channel_read_from(channel_symbols(cubes, delta_t_max), delta_t_max) == Some(cubes),
{
    reveal(channel_read_from);
    let symbols = channel_symbols(cubes, delta_t_max);
    assert(channel_written_as(cubes, symbols, delta_t_max));
    let found = choose|c: Seq<AduCubeView>| channel_written_as(c, symbols, delta_t_max);
    lemma_channel_unique(found, cubes, delta_t_max, Seq::empty(), Seq::empty());
}

/// Whether `adu` is a unit that comes out of a stream and is written as
/// `symbols`.
pub open spec fn adu_written_as(adu: AduView, symbols: Seq<Symbol>, delta_t_max: DeltaT) -> bool {
    adu.valid(delta_t_max) && adu.canonical() && adu.symbols(delta_t_max) == symbols
}

/// The unit that is written as `symbols`, if there is one.
#[verifier::opaque]
pub open spec fn adu_read_from(symbols: Seq<Symbol>, delta_t_max: DeltaT) -> Option<AduView> {
    if exists|adu: AduView| adu_written_as(adu, symbols, delta_t_max) {
        Some(choose|adu: AduView| adu_written_as(adu, symbols, delta_t_max))
    } else {
        None
    }
}

/// Decoding inverts encoding: what is written for a unit is read back as
/// that unit, field for field, if the unit can be written and holds no
/// time residual for a pixel without an event.
pub proof fn lemma_adu_decode_inverts_encode(adu: AduView, delta_t_max: DeltaT)
    requires
        delta_t_max <= MAX_DELTA_T,
        adu.valid(delta_t_max),
        adu.canonical(),
    ensures
        adu_read_from(adu.symbols(delta_t_max), delta_t_max) == Some(adu),
{
    reveal(adu_read_from);
    let symbols = adu.symbols(delta_t_max);
    assert(adu_written_as(adu, symbols, delta_t_max));
    let found = choose|a: AduView| adu_written_as(a, symbols, delta_t_max);
    lemma_adu_unique(found, adu, delta_t_max, Seq::empty(), Seq::empty());
}

/// As many cubes whose writing comes from one point are the same cubes,
/// and what follows either comes from the point after them.
pub proof fn lemma_cubes_determined(
    point: DecoderPoint,
    a: Seq<AduCubeView>,
    rest_a: Seq<Symbol>,
    b: Seq<AduCubeView>,
    rest_b: Seq<Symbol>,
    delta_t_max: DeltaT,
)
    requires
        delta_t_max <= MAX_DELTA_T,
        a.len() == b.len(),
        cubes_valid(a, delta_t_max),
        cubes_canonical(a),
        cubes_valid(b, delta_t_max),
        cubes_canonical(b),
        point.follows(cubes_symbols(a, delta_t_max) + rest_a),
        point.follows(cubes_symbols(b, delta_t_max) + rest_b),
    ensures
        a == b,
        point.after_all(cubes_symbols(a, delta_t_max)).follows(rest_a),
        point.after_all(cubes_symbols(a, delta_t_max)).follows(rest_b),
    decreases a.len(),
{
    if a.len() == 0 {
        assert(a =~= b);
    } else {
        assert(a.skip(0) =~= a);
        assert(b.skip(0) =~= b);
        lemma_cubes_next(a, 0, delta_t_max, rest_a);
        lemma_cubes_next(b, 0, delta_t_max, rest_b);
        let others_a = cubes_symbols(a.skip(1), delta_t_max) + rest_a;
        let others_b = cubes_symbols(b.skip(1), delta_t_max) + rest_b;
        assert(a[0].valid(delta_t_max) && a[0].canonical());
        assert(b[0].valid(delta_t_max) && b[0].canonical());
        lemma_cube_determined(point, a[0], others_a, b[0], others_b, delta_t_max);
        assert forall|i: int| 0 <= i < a.skip(1).len() implies (#[trigger] a.skip(1)[i]).valid(
            delta_t_max,
        ) && a.skip(1)[i].canonical() by {
            assert(a.skip(1)[i] == a[i + 1]);
        }
        assert forall|i: int| 0 <= i < b.skip(1).len() implies (#[trigger] b.skip(1)[i]).valid(
            delta_t_max,
        ) && b.skip(1)[i].canonical() by {
            assert(b.skip(1)[i] == b[i + 1]);
        }
        lemma_cubes_determined(
            point.after_all(a[0].symbols(delta_t_max)),
            a.skip(1),
            rest_a,
            b.skip(1),
            rest_b,
            delta_t_max,
        );
        assert forall|i: int| 0 <= i < a.len() implies a[i] == b[i] by {
            if i > 0 {
                assert(a.skip(1)[i - 1] == a[i]);
                assert(b.skip(1)[i - 1] == b[i]);
            }
        }
        assert(a =~= b);
    }
    lemma_follows_split(point, cubes_symbols(a, delta_t_max), rest_a);
    lemma_follows_split(point, cubes_symbols(a, delta_t_max), rest_b);
}

/// Two channels whose writing comes from one point are the same channel,
/// and what follows either comes from the point after it.
pub proof fn lemma_channel_determined(
    point: DecoderPoint,
    a: Seq<AduCubeView>,
    rest_a: Seq<Symbol>,
    b: Seq<AduCubeView>,
    rest_b: Seq<Symbol>,
    delta_t_max: DeltaT,
)
    requires
        delta_t_max <= MAX_DELTA_T,
        channel_valid(a, delta_t_max),
        cubes_canonical(a),
        channel_valid(b, delta_t_max),
        cubes_canonical(b),
        point.follows(channel_symbols(a, delta_t_max) + rest_a),
        point.follows(channel_symbols(b, delta_t_max) + rest_b),
    ensures
        a == b,
        point.after_all(channel_symbols(a, delta_t_max)).follows(rest_a),
        point.after_all(channel_symbols(a, delta_t_max)).follows(rest_b),
{
    let switch = seq![Symbol::Context(U8_GENERAL_CONTEXT)];
    let cubes_a = cubes_symbols(a, delta_t_max) + rest_a;
    let cubes_b = cubes_symbols(b, delta_t_max) + rest_b;
    let count_a = u16_symbols(a.len() as u16) + cubes_a;
    let count_b = u16_symbols(b.len() as u16) + cubes_b;
    assert(channel_symbols(a, delta_t_max) + rest_a =~= switch + count_a);
    assert(channel_symbols(b, delta_t_max) + rest_b =~= switch + count_b);
    lemma_piece_agrees(point, switch, count_a, count_b);
    let step1 = point.after_all(switch);
    lemma_u16_determined(step1, a.len() as u16, cubes_a, b.len() as u16, cubes_b);
    let step2 = step1.after_all(u16_symbols(a.len() as u16));
    lemma_cubes_determined(step2, a, rest_a, b, rest_b, delta_t_max);
    lemma_follows_split(point, channel_symbols(a, delta_t_max), rest_a);
    lemma_follows_split(point, channel_symbols(a, delta_t_max), rest_b);
}

/// Two units whose writing comes from one point are the same unit, and
/// what follows either comes from the point after it.
pub proof fn lemma_adu_determined(
    point: DecoderPoint,
    a: AduView,
    rest_a: Seq<Symbol>,
    b: AduView,
    rest_b: Seq<Symbol>,
    delta_t_max: DeltaT,
)
    requires
        delta_t_max <= MAX_DELTA_T,
        a.valid(delta_t_max),
        a.canonical(),
        b.valid(delta_t_max),
        b.canonical(),
        point.follows(a.symbols(delta_t_max) + rest_a),
        point.follows(b.symbols(delta_t_max) + rest_b),
    ensures
        a == b,
        point.after_all(a.symbols(delta_t_max)).follows(rest_a),
        point.after_all(a.symbols(delta_t_max)).follows(rest_b),
{
    lemma_adu_nested(a, delta_t_max, rest_a);
    lemma_adu_nested(b, delta_t_max, rest_b);
    let switch = seq![Symbol::Context(U8_GENERAL_CONTEXT)];
    let blue_a = channel_symbols(a.cubes_b, delta_t_max) + rest_a;
    let blue_b = channel_symbols(b.cubes_b, delta_t_max) + rest_b;
    let green_a = channel_symbols(a.cubes_g, delta_t_max) + blue_a;
    let green_b = channel_symbols(b.cubes_g, delta_t_max) + blue_b;
    let red_a = channel_symbols(a.cubes_r, delta_t_max) + green_a;
    let red_b = channel_symbols(b.cubes_r, delta_t_max) + green_b;
    lemma_piece_agrees(
        point,
        switch,
        u32_symbols(a.head_event_t) + red_a,
        u32_symbols(b.head_event_t) + red_b,
    );
    let step1 = point.after_all(switch);
    lemma_u32_determined(step1, a.head_event_t, red_a, b.head_event_t, red_b);
    let step2 = step1.after_all(u32_symbols(a.head_event_t));
    lemma_channel_determined(step2, a.cubes_r, green_a, b.cubes_r, green_b, delta_t_max);
    let step3 = step2.after_all(channel_symbols(a.cubes_r, delta_t_max));
    lemma_channel_determined(step3, a.cubes_g, blue_a, b.cubes_g, blue_b, delta_t_max);
    let step4 = step3.after_all(channel_symbols(a.cubes_g, delta_t_max));
    lemma_channel_determined(step4, a.cubes_b, rest_a, b.cubes_b, rest_b, delta_t_max);
    lemma_follows_split(point, a.symbols(delta_t_max), rest_a);
    lemma_follows_split(point, a.symbols(delta_t_max), rest_b);
}

/// Bytes spell at most one unit: two units that the same bytes spell
/// under the same largest time span are the same unit.
pub proof fn lemma_bytes_spell_one_unit(
    bytes: Seq<u8>,
    delta_t_max: DeltaT,
    a: AduView,
    b: AduView,
)
    requires
        delta_t_max <= MAX_DELTA_T,
        adu_spelled_by(bytes, delta_t_max, a),
        adu_spelled_by(bytes, delta_t_max, b),
    ensures
        a == b,
{
    let end = seq![Symbol::Context(EOF_CONTEXT)];
    assert(a.symbols(delta_t_max).push(Symbol::Context(EOF_CONTEXT)) =~= a.symbols(delta_t_max)
        + end);
    assert(b.symbols(delta_t_max).push(Symbol::Context(EOF_CONTEXT)) =~= b.symbols(delta_t_max)
        + end);
    lemma_adu_determined(decoder_start(bytes, delta_t_max), a, end, b, end, delta_t_max);
}

} // verus!
