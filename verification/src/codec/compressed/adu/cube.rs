//! A cube as it stands in a stream: where it lies, its first block, and
//! the blocks that follow.

use vstd::prelude::*;
use crate::codec::compressed::adu::interblock::{
    lemma_inter_block_determined, lemma_inter_block_unique, AduInterBlock,
};
use crate::codec::compressed::adu::intrablock::{
    lemma_intra_block_determined, lemma_intra_block_unique, AduIntraBlock,
};
use crate::codec::compressed::adu::{
    lemma_after_prefix, lemma_append_assoc, lemma_piece_agrees, lemma_u16_determined,
    lemma_u16_symbols_injective, lemma_u8_determined, live, read_context, read_failed, read_u16,
    read_u8, reads_on, u16_symbols, u8_symbols, write_context, write_u16, write_u8, writes_on,
};
use crate::codec::compressed::fenwick::context_switching::Symbol;
use crate::codec::compressed::stream::{
    lemma_follows_split, CompressedInput, CompressedOutput, DecoderPoint, MAX_DELTA_T,
    U8_GENERAL_CONTEXT,
};
use crate::codec::CodecError;
use crate::DeltaT;

verus! {

/// The blocks after the first as they are written, one after the other.
pub open spec fn inter_blocks_symbols(blocks: Seq<AduInterBlock>, delta_t_max: DeltaT) -> Seq<
    Symbol,
>
    decreases blocks.len(),
{
    if blocks.len() == 0 {
        Seq::empty()
    } else {
        inter_blocks_symbols(blocks.drop_last(), delta_t_max) + blocks.last().symbols(delta_t_max)
    }
}

/// What is written for some blocks is what is written for the first of
/// them, followed by what is written for the others.
pub proof fn lemma_inter_blocks_front(blocks: Seq<AduInterBlock>, delta_t_max: DeltaT)
    requires
        blocks.len() > 0,
    ensures
        inter_blocks_symbols(blocks, delta_t_max) == blocks[0].symbols(delta_t_max)
            + inter_blocks_symbols(blocks.skip(1), delta_t_max),
    decreases blocks.len(),
{
    if blocks.len() == 1 {
        assert(blocks.drop_last() =~= Seq::<AduInterBlock>::empty());
        assert(blocks.skip(1) =~= Seq::<AduInterBlock>::empty());
        assert(inter_blocks_symbols(blocks, delta_t_max) =~= blocks[0].symbols(delta_t_max)
            + inter_blocks_symbols(blocks.skip(1), delta_t_max));
    } else {
        lemma_inter_blocks_front(blocks.drop_last(), delta_t_max);
        assert(blocks.drop_last().skip(1) =~= blocks.skip(1).drop_last());
        assert(inter_blocks_symbols(blocks, delta_t_max) =~= blocks[0].symbols(delta_t_max)
            + inter_blocks_symbols(blocks.skip(1), delta_t_max));
    }
}

/// Whether each of `blocks` can be written under `delta_t_max`.
pub open spec fn inter_blocks_valid(blocks: Seq<AduInterBlock>, delta_t_max: DeltaT) -> bool {
    forall|i: int| 0 <= i < blocks.len() ==> (#[trigger] blocks[i]).valid(delta_t_max)
}

/// Whether none of `blocks` holds a time residual for a pixel without an event.
pub open spec fn inter_blocks_canonical(blocks: Seq<AduInterBlock>) -> bool {
    forall|i: int| 0 <= i < blocks.len() ==> (#[trigger] blocks[i]).canonical()
}

/// As many blocks, written alike, whatever follows them, are the same
/// blocks, and the same follows them.
pub proof fn lemma_inter_blocks_unique(
    a: Seq<AduInterBlock>,
    b: Seq<AduInterBlock>,
    delta_t_max: DeltaT,
    rest_a: Seq<Symbol>,
    rest_b: Seq<Symbol>,
)
    requires
        delta_t_max <= MAX_DELTA_T,
        a.len() == b.len(),
        inter_blocks_valid(a, delta_t_max),
        inter_blocks_canonical(a),
        inter_blocks_valid(b, delta_t_max),
        inter_blocks_canonical(b),
        inter_blocks_symbols(a, delta_t_max) + rest_a == inter_blocks_symbols(b, delta_t_max)
            + rest_b,
    ensures
        a == b,
        rest_a == rest_b,
    decreases a.len(),
{
    if a.len() == 0 {
        assert(a =~= b);
        assert(rest_a =~= inter_blocks_symbols(a, delta_t_max) + rest_a);
        assert(rest_b =~= inter_blocks_symbols(b, delta_t_max) + rest_b);
    } else {
        lemma_inter_blocks_front(a, delta_t_max);
        lemma_inter_blocks_front(b, delta_t_max);
        let tail_a = inter_blocks_symbols(a.skip(1), delta_t_max) + rest_a;
        let tail_b = inter_blocks_symbols(b.skip(1), delta_t_max) + rest_b;
        lemma_append_assoc(
            a[0].symbols(delta_t_max),
            inter_blocks_symbols(a.skip(1), delta_t_max),
            rest_a,
        );
        lemma_append_assoc(
            b[0].symbols(delta_t_max),
            inter_blocks_symbols(b.skip(1), delta_t_max),
            rest_b,
        );
        assert(a[0].valid(delta_t_max) && a[0].canonical());
        assert(b[0].valid(delta_t_max) && b[0].canonical());
        lemma_inter_block_unique(a[0], b[0], delta_t_max, tail_a, tail_b);
        assert forall|i: int| 0 <= i < a.skip(1).len() implies (#[trigger] a.skip(1)[i]).valid(
            delta_t_max,
        ) && a.skip(1)[i].canonical() by {
            assert(a.skip(1)[i] == a[i + 1]);
        }
        assert forall|i: int| 0 <= i < b.skip(1).len() implies (#[trigger] b.skip(1)[i]).valid(
            delta_t_max,
        ) && b.skip(1)[i].canonical() by {
            assert(b.skip(1)[i] == b[i + 1]);
        }
        lemma_inter_blocks_unique(a.skip(1), b.skip(1), delta_t_max, rest_a, rest_b);
        assert forall|i: int| 0 <= i < a.len() implies a[i] == b[i] by {
            if i > 0 {
                assert(a.skip(1)[i - 1] == a[i]);
                assert(b.skip(1)[i - 1] == b[i]);
            }
        }
        assert(a =~= b);
    }
}

/// A cube as its place, its first block, and the blocks that follow.
pub ghost struct AduCubeView {
    pub idx_y: u8,
    pub idx_x: u8,
    pub intra_block: AduIntraBlock,
    pub inter_blocks: Seq<AduInterBlock>,
}

impl AduCubeView {
    /// Whether the cube can be written under `delta_t_max`: each of its
    /// blocks can, and their number fits 16 bits.
    pub open spec fn valid(self, delta_t_max: DeltaT) -> bool {
        &&& self.intra_block.valid(delta_t_max)
        &&& self.inter_blocks.len() <= 0xffff
        &&& inter_blocks_valid(self.inter_blocks, delta_t_max)
    }

    /// Whether no block of the cube holds a time residual for a pixel
    /// without an event.
    pub open spec fn canonical(self) -> bool {
        self.intra_block.canonical() && inter_blocks_canonical(self.inter_blocks)
    }

    /// The cube as it is written: its row and column, its first block,
    /// the number of blocks that follow, and those blocks.
    pub open spec fn symbols(self, delta_t_max: DeltaT) -> Seq<Symbol> {
        seq![Symbol::Context(U8_GENERAL_CONTEXT)] + u8_symbols(self.idx_y) + u8_symbols(self.idx_x)
            + self.intra_block.symbols(delta_t_max) + seq![Symbol::Context(U8_GENERAL_CONTEXT)]
            + u16_symbols(self.inter_blocks.len() as u16) + inter_blocks_symbols(
            self.inter_blocks,
            delta_t_max,
        )
    }
}

/// Two cubes that can be written, hold nothing for pixels without an
/// event, and are written alike, whatever follows them, are the same cube,
/// and the same follows them.
pub proof fn lemma_cube_unique(
    a: AduCubeView,
    b: AduCubeView,
    delta_t_max: DeltaT,
    rest_a: Seq<Symbol>,
    rest_b: Seq<Symbol>,
)
    requires
        delta_t_max <= MAX_DELTA_T,
        a.valid(delta_t_max),
        a.canonical(),
        b.valid(delta_t_max),
        b.canonical(),
        a.symbols(delta_t_max) + rest_a == b.symbols(delta_t_max) + rest_b,
    ensures
        a == b,
        rest_a == rest_b,
{
    let head_a = seq![Symbol::Context(U8_GENERAL_CONTEXT)] + u8_symbols(a.idx_y) + u8_symbols(
        a.idx_x,
    );
    let head_b = seq![Symbol::Context(U8_GENERAL_CONTEXT)] + u8_symbols(b.idx_y) + u8_symbols(
        b.idx_x,
    );
    let count_a = seq![Symbol::Context(U8_GENERAL_CONTEXT)] + u16_symbols(
        a.inter_blocks.len() as u16,
    );
    let count_b = seq![Symbol::Context(U8_GENERAL_CONTEXT)] + u16_symbols(
        b.inter_blocks.len() as u16,
    );
    let blocks_a = inter_blocks_symbols(a.inter_blocks, delta_t_max) + rest_a;
    let blocks_b = inter_blocks_symbols(b.inter_blocks, delta_t_max) + rest_b;
    let tail_a = count_a + blocks_a;
    let tail_b = count_b + blocks_b;
    let after_head_a = a.intra_block.symbols(delta_t_max) + tail_a;
    let after_head_b = b.intra_block.symbols(delta_t_max) + tail_b;
    assert(head_a + after_head_a == head_b + after_head_b) by {
        lemma_cube_symbols_nested(a, delta_t_max, rest_a);
        lemma_cube_symbols_nested(b, delta_t_max, rest_b);
    }
    assert(a.idx_y == b.idx_y && a.idx_x == b.idx_x && after_head_a == after_head_b) by {
        assert(head_a.len() == 3 && head_b.len() == 3);
        lemma_after_prefix(head_a, after_head_a);
        lemma_after_prefix(head_b, after_head_b);
        assert(head_a[1] == Symbol::Value(a.idx_y as usize));
        assert(head_b[1] == Symbol::Value(b.idx_y as usize));
        assert(head_a[2] == Symbol::Value(a.idx_x as usize));
        assert(head_b[2] == Symbol::Value(b.idx_x as usize));
    }
    lemma_intra_block_unique(a.intra_block, b.intra_block, delta_t_max, tail_a, tail_b);
    assert(a.inter_blocks.len() == b.inter_blocks.len() && blocks_a == blocks_b) by {
        assert(count_a.len() == 3 && count_b.len() == 3);
        lemma_after_prefix(count_a, blocks_a);
        lemma_after_prefix(count_b, blocks_b);
        assert(u16_symbols(a.inter_blocks.len() as u16) =~= count_a.skip(1));
        assert(u16_symbols(b.inter_blocks.len() as u16) =~= count_b.skip(1));
        lemma_u16_symbols_injective(a.inter_blocks.len() as u16, b.inter_blocks.len() as u16);
    }
    lemma_inter_blocks_unique(a.inter_blocks, b.inter_blocks, delta_t_max, rest_a, rest_b);
}

/// What a writer has written after the parts of a cube, one after the
/// other, is what is written for the cube.
proof fn lemma_cube_assembled(cube: AduCubeView, before: Seq<Symbol>, delta_t_max: DeltaT)
    ensures
        (before.push(Symbol::Context(U8_GENERAL_CONTEXT)) + u8_symbols(cube.idx_y) + u8_symbols(
            cube.idx_x,
        ) + cube.intra_block.symbols(delta_t_max)).push(Symbol::Context(U8_GENERAL_CONTEXT))
            + u16_symbols(cube.inter_blocks.len() as u16) + inter_blocks_symbols(
            cube.inter_blocks,
            delta_t_max,
        ) == before + cube.symbols(delta_t_max),
{
    let head = u8_symbols(cube.idx_y) + u8_symbols(cube.idx_x);
    let intra = cube.intra_block.symbols(delta_t_max);
    let switch = Symbol::Context(U8_GENERAL_CONTEXT);
    let count = u16_symbols(cube.inter_blocks.len() as u16);
    let inter = inter_blocks_symbols(cube.inter_blocks, delta_t_max);
    assert((before.push(switch) + u8_symbols(cube.idx_y) + u8_symbols(cube.idx_x) + intra).push(
        switch,
    ) + count + inter =~= before + (seq![switch] + u8_symbols(cube.idx_y) + u8_symbols(
        cube.idx_x,
    ) + intra + seq![switch] + count + inter));
}

proof fn lemma_cube_symbols_nested(cube: AduCubeView, delta_t_max: DeltaT, rest: Seq<Symbol>)
    ensures
        cube.symbols(delta_t_max) + rest == (seq![Symbol::Context(U8_GENERAL_CONTEXT)]
            + u8_symbols(cube.idx_y) + u8_symbols(cube.idx_x)) + (cube.intra_block.symbols(
            delta_t_max,
        ) + ((seq![Symbol::Context(U8_GENERAL_CONTEXT)] + u16_symbols(
            cube.inter_blocks.len() as u16,
        )) + (inter_blocks_symbols(cube.inter_blocks, delta_t_max) + rest))),
{
    let head = seq![Symbol::Context(U8_GENERAL_CONTEXT)] + u8_symbols(cube.idx_y) + u8_symbols(
        cube.idx_x,
    );
    let intra = cube.intra_block.symbols(delta_t_max);
    let switch = seq![Symbol::Context(U8_GENERAL_CONTEXT)];
    let count = u16_symbols(cube.inter_blocks.len() as u16);
    let inter = inter_blocks_symbols(cube.inter_blocks, delta_t_max);
    assert(head + intra + switch + count + inter + rest =~= head + (intra + ((switch + count) + (
    inter + rest))));
}

/// A cube as it stands in a stream.
#[derive(Debug, Clone, PartialEq, Eq)]
pub struct AduCube {
    idx_y: u8,
    idx_x: u8,
    intra_block: AduIntraBlock,
    /// The number of inter blocks; it is their count.
    num_inter_blocks: u16,
    inter_blocks: Vec<AduInterBlock>,
}

impl View for AduCube {
    type V = AduCubeView;

    closed spec fn view(&self) -> AduCubeView {
        AduCubeView {
            idx_y: self.idx_y,
            idx_x: self.idx_x,
            intra_block: self.intra_block,
            inter_blocks: self.inter_blocks@,
        }
    }
}

impl AduCube {
    /// The recorded number of blocks is their count.
    pub closed spec fn wf(&self) -> bool {
        self.num_inter_blocks == self.inter_blocks@.len()
    }

    /// A well-formed cube has at most 65535 blocks after the first.
    pub proof fn lemma_wf(&self)
        requires
            self.wf(),
        ensures
            self@.inter_blocks.len() <= 0xffff,
    {
    }

    /// A cube at row `idx_y` and column `idx_x` that holds `intra_block`
    /// and no other block.
    pub fn from_intra_block(intra_block: AduIntraBlock, idx_y: u8, idx_x: u8) -> (cube: Self)
        ensures
            cube.wf(),
            cube@ == (AduCubeView {
                idx_y,
                idx_x,
                intra_block,
                inter_blocks: Seq::<AduInterBlock>::empty(),
            }),
    {
        AduCube { idx_y, idx_x, intra_block, num_inter_blocks: 0, inter_blocks: Vec::new() }
    }

    /// Appends a block to the cube.
    pub fn add_inter_block(&mut self, block: AduInterBlock)
        requires
            old(self).wf(),
            old(self)@.inter_blocks.len() < 0xffff,
        ensures
            final(self).wf(),
            final(self)@ == (AduCubeView {
                inter_blocks: old(self)@.inter_blocks.push(block),
                ..old(self)@
            }),
    {
        self.inter_blocks.push(block);
        self.num_inter_blocks = self.num_inter_blocks + 1;
    }

    /// The row of the cube.
    pub fn idx_y(&self) -> (idx_y: u8)
        ensures
            idx_y == self@.idx_y,
    {
        self.idx_y
    }

    /// The column of the cube.
    pub fn idx_x(&self) -> (idx_x: u8)
        ensures
            idx_x == self@.idx_x,
    {
        self.idx_x
    }

    /// The first block of the cube.
    pub fn intra_block(&self) -> (block: &AduIntraBlock)
        ensures
            *block == self@.intra_block,
    {
        &self.intra_block
    }

    /// The number of blocks after the first.
    pub fn num_inter_blocks(&self) -> (count: u16)
        requires
            self.wf(),
        ensures
            count == self@.inter_blocks.len(),
    {
        self.num_inter_blocks
    }

    /// The blocks after the first.
    pub fn inter_blocks(&self) -> (blocks: &Vec<AduInterBlock>)
        ensures
            blocks@ == self@.inter_blocks,
    {
        &self.inter_blocks
    }

    /// Whether the cube can be written under `delta_t_max`.
    pub fn check(&self, delta_t_max: DeltaT) -> (valid: bool)
        requires
            self.wf(),
        ensures
            valid == self@.valid(delta_t_max),
    {
        if !self.intra_block.check(delta_t_max) {
            return false;
        }
        let mut i: usize = 0;
        while i < self.inter_blocks.len()
            invariant
                i <= self.inter_blocks@.len(),
                forall|j: int| 0 <= j < i ==> (#[trigger] self.inter_blocks@[j]).valid(delta_t_max),
            decreases self.inter_blocks@.len() - i,
        {
            if !self.inter_blocks[i].check(delta_t_max) {
                return false;
            }
            i += 1;
        }
        true
    }

    /// Writes the cube. A cube that cannot be written is refused before
    /// anything is written.
    pub fn compress(&self, output: &mut CompressedOutput) -> (result: Result<(), CodecError>)
        requires
            self.wf(),
            old(output).wf(),
        ensures
            writes_on(*old(output), *final(output)),
            match result {
                Ok(_) => {
                    &&& self@.valid(old(output).delta_t_max())
                    &&& final(output).symbols() == old(output).symbols() + self@.symbols(
                        old(output).delta_t_max(),
                    )
                },
                Err(e) => {
                    &&& e == CodecError::InvalidInput
                    &&& !self@.valid(old(output).delta_t_max())
                    &&& final(output).symbols() == old(output).symbols()
                    &&& final(output).context() == old(output).context()
                },
            },
    {
        let delta_t_max = output.dtm();
        if !self.check(delta_t_max) {
            return Err(CodecError::InvalidInput);
        }
        write_context(output, U8_GENERAL_CONTEXT);
        write_u8(output, self.idx_y);
        write_u8(output, self.idx_x);
        match self.intra_block.compress(output) {
            Ok(_) => {},
            Err(e) => {
                return Err(e);
            },
        }
        write_context(output, U8_GENERAL_CONTEXT);
        write_u16(output, self.num_inter_blocks);
        let ghost start = output.symbols();
        let mut i: usize = 0;
        while i < self.inter_blocks.len()
            invariant
                i <= self.inter_blocks@.len(),
                delta_t_max == old(output).delta_t_max(),
                inter_blocks_valid(self.inter_blocks@, delta_t_max),
                writes_on(*old(output), *output),
                output.symbols() == start + inter_blocks_symbols(
                    self.inter_blocks@.take(i as int),
                    delta_t_max,
                ),
            decreases self.inter_blocks@.len() - i,
        {
            assert(self.inter_blocks@[i as int].valid(delta_t_max));
            match self.inter_blocks[i].compress(output) {
                Ok(_) => {},
                Err(e) => {
                    return Err(e);
                },
            }
            proof {
                assert(self.inter_blocks@.take(i + 1).drop_last() =~= self.inter_blocks@.take(
                    i as int,
                ));
                lemma_append_assoc(
                    start,
                    inter_blocks_symbols(self.inter_blocks@.take(i as int), delta_t_max),
                    self.inter_blocks@[i as int].symbols(delta_t_max),
                );
            }
            i += 1;
        }
        proof {
            assert(self.inter_blocks@.take(i as int) =~= self.inter_blocks@);
            lemma_cube_assembled(self@, old(output).symbols(), delta_t_max);
        }
        Ok(())
    }

    /// Reads a cube. What was handed out while reading is the cube as it
    /// is written. Where the decoder gives what is written for a cube, that
    /// cube is read.
    #[verifier::rlimit(80)]
    pub fn decompress(input: &mut CompressedInput) -> (result: Result<Self, CodecError>)
        requires
            old(input).wf(),
        ensures
            reads_on(*old(input), *final(input)),
            match result {
                Ok(cube) => {
                    &&& cube.wf()
                    &&& cube@.valid(old(input).delta_t_max())
                    &&& cube@.canonical()
                    &&& !final(input).spec_finished()
                    &&& !final(input).spec_failed()
                    &&& final(input).delivered() == old(input).delivered() + cube@.symbols(
                        old(input).delta_t_max(),
                    )
                    &&& cube_read_from(
                        final(input).delivered().skip(old(input).delivered().len() as int),
                        old(input).delta_t_max(),
                    ) == Some(cube@)
                },
                Err(e) => read_failed(*final(input), e),
            },
            live(*old(input)) ==> forall|c: AduCubeView, rest: Seq<Symbol>|
                c.valid(old(input).delta_t_max()) && c.canonical() && #[trigger] old(
                    input,
                ).point().follows(c.symbols(old(input).delta_t_max()) + rest) ==> (result matches Ok(
                    cube,
                ) && cube@ == c) && final(input).point().follows(rest),
            live(*old(input)) && (exists|c: AduCubeView|
                c.valid(old(input).delta_t_max()) && c.canonical() && #[trigger] old(
                    input,
                ).point().follows(c.symbols(old(input).delta_t_max()))) ==> result is Ok,
    {
        let ghost delta_t_max = input.delta_t_max();
        let ghost origin = input.point();
        let ghost was_live = live(*input);
        proof {
            assert forall|c: AduCubeView| #[trigger]
                origin.follows(c.symbols(delta_t_max)) implies origin.follows(
                c.symbols(delta_t_max) + Seq::<Symbol>::empty(),
            ) by {
                assert(c.symbols(delta_t_max) + Seq::<Symbol>::empty() =~= c.symbols(delta_t_max));
            }
        }
        proof {
            assert forall|c: AduCubeView, rest: Seq<Symbol>| #[trigger]
                origin.follows(c.symbols(delta_t_max) + rest) implies origin.follows(
                cube_nested(c, delta_t_max, rest),
            ) by {
                lemma_cube_nested(c, delta_t_max, rest);
            }
        }
        read_context(input, U8_GENERAL_CONTEXT);
        let idx_y = read_u8(input)?;
        let idx_x = read_u8(input)?;
        let intra_block = AduIntraBlock::decompress(input)?;
        read_context(input, U8_GENERAL_CONTEXT);
        let num_inter_blocks = read_u16(input)?;
        let ghost start = input.delivered();
        let mut inter_blocks: Vec<AduInterBlock> = Vec::new();
        let mut i: u16 = 0;
        proof {
            if was_live {
                assert forall|c: AduCubeView, rest: Seq<Symbol>|
                    c.valid(delta_t_max) && c.canonical() && #[trigger] origin.follows(
                        c.symbols(delta_t_max) + rest,
                    ) implies cube_head_read(c, idx_y, idx_x, intra_block, num_inter_blocks)
                    && inter_blocks@ == c.inter_blocks.take(0) && input.point().follows(
                    inter_blocks_symbols(c.inter_blocks.skip(0), delta_t_max) + rest,
                ) by {
                    assert(origin.follows(cube_nested(c, delta_t_max, rest)));
                    assert(c.inter_blocks.skip(0) =~= c.inter_blocks);
                    assert(inter_blocks@ =~= c.inter_blocks.take(0));
                }
            }
        }
        while i < num_inter_blocks
            invariant
                i <= num_inter_blocks,
                inter_blocks@.len() == i,
                delta_t_max == old(input).delta_t_max(),
                reads_on(*old(input), *input),
                !input.spec_finished(),
                !input.spec_failed(),
                inter_blocks_valid(inter_blocks@, delta_t_max),
                inter_blocks_canonical(inter_blocks@),
                input.delivered() == start + inter_blocks_symbols(inter_blocks@, delta_t_max),
                was_live == live(*old(input)),
                origin == old(input).point(),
                forall|c: AduCubeView| #[trigger]
                    origin.follows(c.symbols(delta_t_max)) ==> origin.follows(
                        c.symbols(delta_t_max) + Seq::<Symbol>::empty(),
                    ),
                was_live ==> forall|c: AduCubeView, rest: Seq<Symbol>|
                    c.valid(delta_t_max) && c.canonical() && #[trigger] origin.follows(
                        c.symbols(delta_t_max) + rest,
                    ) ==> cube_head_read(c, idx_y, idx_x, intra_block, num_inter_blocks)
                        && inter_blocks@ == c.inter_blocks.take(i as int) && input.point().follows(
                        inter_blocks_symbols(c.inter_blocks.skip(i as int), delta_t_max) + rest,
                    ),
            decreases num_inter_blocks - i,
        {
            let ghost here = input.point();
            proof {
                if was_live {
                    assert forall|c: AduCubeView, rest: Seq<Symbol>|
                        c.valid(delta_t_max) && c.canonical() && #[trigger] origin.follows(
                            c.symbols(delta_t_max) + rest,
                        ) implies c.inter_blocks[i as int].valid(delta_t_max)
                        && c.inter_blocks[i as int].canonical() && here.follows(
                        c.inter_blocks[i as int].symbols(delta_t_max) + (inter_blocks_symbols(
                            c.inter_blocks.skip(i + 1),
                            delta_t_max,
                        ) + rest),
                    ) by {
                        lemma_inter_blocks_next(c.inter_blocks, i as int, delta_t_max, rest);
                    }
                }
            }
            let block = AduInterBlock::decompress(input)?;
            let ghost before = inter_blocks@;
            inter_blocks.push(block);
            proof {
                assert(inter_blocks@.drop_last() =~= before);
                assert(input.delivered() =~= start + inter_blocks_symbols(
                    inter_blocks@,
                    delta_t_max,
                ));
                if was_live {
                    assert forall|c: AduCubeView, rest: Seq<Symbol>|
                        c.valid(delta_t_max) && c.canonical() && #[trigger] origin.follows(
                            c.symbols(delta_t_max) + rest,
                        ) implies inter_blocks@ == c.inter_blocks.take(i + 1)
                        && input.point().follows(
                        inter_blocks_symbols(c.inter_blocks.skip(i + 1), delta_t_max) + rest,
                    ) by {
                        assert(here.follows(
                            c.inter_blocks[i as int].symbols(delta_t_max) + (inter_blocks_symbols(
                                c.inter_blocks.skip(i + 1),
                                delta_t_max,
                            ) + rest),
                        ));
                        assert(before == c.inter_blocks.take(i as int));
                        assert(inter_blocks@ =~= c.inter_blocks.take(i + 1));
                    }
                }
            }
            i += 1;
        }
        let cube = AduCube { idx_y, idx_x, intra_block, num_inter_blocks, inter_blocks };
        proof {
            let written = cube@.symbols(delta_t_max);
            assert(input.delivered() =~= old(input).delivered() + written);
            lemma_after_prefix(old(input).delivered(), written);
            input.lemma_wf();
            lemma_cube_decode_inverts_encode(cube@, input.delta_t_max());
            if was_live {
                assert forall|c: AduCubeView, rest: Seq<Symbol>|
                    c.valid(delta_t_max) && c.canonical() && #[trigger] origin.follows(
                        c.symbols(delta_t_max) + rest,
                    ) implies cube@ == c && input.point().follows(rest) by {
                    assert(cube_head_read(c, idx_y, idx_x, intra_block, num_inter_blocks));
                    assert(c.inter_blocks.take(i as int) =~= c.inter_blocks);
                    assert(c.inter_blocks.skip(i as int) =~= Seq::<AduInterBlock>::empty());
                    assert(inter_blocks_symbols(c.inter_blocks.skip(i as int), delta_t_max) + rest
                        =~= rest);
                }
            }
        }
        Ok(cube)
    }
}

/// Whether what was read at the head of a cube is what `c` holds there.
pub open spec fn cube_head_read(
    c: AduCubeView,
    idx_y: u8,
    idx_x: u8,
    intra_block: AduIntraBlock,
    num_inter_blocks: u16,
) -> bool {
    &&& c.idx_y == idx_y
    &&& c.idx_x == idx_x
    &&& c.intra_block == intra_block
    &&& c.inter_blocks.len() == num_inter_blocks
}

/// What is written for a cube, followed by `rest`, part by part.
pub open spec fn cube_nested(c: AduCubeView, delta_t_max: DeltaT, rest: Seq<Symbol>) -> Seq<
    Symbol,
> {
    seq![Symbol::Context(U8_GENERAL_CONTEXT)] + (u8_symbols(c.idx_y) + (u8_symbols(c.idx_x) + (
    c.intra_block.symbols(delta_t_max) + (seq![Symbol::Context(U8_GENERAL_CONTEXT)] + (
    u16_symbols(c.inter_blocks.len() as u16) + (inter_blocks_symbols(c.inter_blocks, delta_t_max)
        + rest))))))
}

/// What is written for a cube, followed by `rest`, is its parts one after
/// the other.
pub proof fn lemma_cube_nested(c: AduCubeView, delta_t_max: DeltaT, rest: Seq<Symbol>)
    ensures
        c.symbols(delta_t_max) + rest == cube_nested(c, delta_t_max, rest),
{
    let y = u8_symbols(c.idx_y);
    let x = u8_symbols(c.idx_x);
    let intra = c.intra_block.symbols(delta_t_max);
    let switch = seq![Symbol::Context(U8_GENERAL_CONTEXT)];
    let count = u16_symbols(c.inter_blocks.len() as u16);
    let inter = inter_blocks_symbols(c.inter_blocks, delta_t_max);
    assert(switch + y + x + intra + switch + count + inter + rest =~= switch + (y + (x + (intra + (
    switch + (count + (inter + rest)))))));
}

/// What is written for the blocks from index `i` on, followed by `rest`,
/// begins with what is written for the block at index `i`.
pub proof fn lemma_inter_blocks_next(
    blocks: Seq<AduInterBlock>,
    i: int,
    delta_t_max: DeltaT,
    rest: Seq<Symbol>,
)
    requires
        0 <= i < blocks.len(),
    ensures
        inter_blocks_symbols(blocks.skip(i), delta_t_max) + rest == blocks[i].symbols(delta_t_max)
            + (inter_blocks_symbols(blocks.skip(i + 1), delta_t_max) + rest),
{
    lemma_inter_blocks_front(blocks.skip(i), delta_t_max);
    assert(blocks.skip(i).skip(1) =~= blocks.skip(i + 1));
    lemma_append_assoc(
        blocks[i].symbols(delta_t_max),
        inter_blocks_symbols(blocks.skip(i + 1), delta_t_max),
        rest,
    );
}

/// Whether `cube` is a cube that comes out of a stream and is written as
/// `symbols`.
pub open spec fn cube_written_as(cube: AduCubeView, symbols: Seq<Symbol>, delta_t_max: DeltaT) -> bool {
    cube.valid(delta_t_max) && cube.canonical() && cube.symbols(delta_t_max) == symbols
}

/// The cube that is written as `symbols`, if there is one.
#[verifier::opaque]
pub open spec fn cube_read_from(symbols: Seq<Symbol>, delta_t_max: DeltaT) -> Option<AduCubeView> {
    if exists|cube: AduCubeView| cube_written_as(cube, symbols, delta_t_max) {
        Some(choose|cube: AduCubeView| cube_written_as(cube, symbols, delta_t_max))
    } else {
        None
    }
}

/// Decoding inverts encoding: what is written for a cube is read back as
/// that cube, if the cube can be written and holds no time residual for a
/// pixel without an event.
pub proof fn lemma_cube_decode_inverts_encode(cube: AduCubeView, delta_t_max: DeltaT)
    requires
        delta_t_max <= MAX_DELTA_T,
        cube.valid(delta_t_max),
        cube.canonical(),
    ensures
        cube_read_from(cube.symbols(delta_t_max), delta_t_max) == Some(cube),
{
    reveal(cube_read_from);
    let symbols = cube.symbols(delta_t_max);
    assert(cube_written_as(cube, symbols, delta_t_max));
    let found = choose|c: AduCubeView| cube_written_as(c, symbols, delta_t_max);
    lemma_cube_unique(found, cube, delta_t_max, Seq::empty(), Seq::empty());
}

/// As many blocks whose writing comes from one point are the same
/// blocks, and what follows either comes from the point after them.
pub proof fn lemma_inter_blocks_determined(
    point: DecoderPoint,
    a: Seq<AduInterBlock>,
    rest_a: Seq<Symbol>,
    b: Seq<AduInterBlock>,
    rest_b: Seq<Symbol>,
    delta_t_max: DeltaT,
)
    requires
        delta_t_max <= MAX_DELTA_T,
        a.len() == b.len(),
        inter_blocks_valid(a, delta_t_max),
        inter_blocks_canonical(a),
        inter_blocks_valid(b, delta_t_max),
        inter_blocks_canonical(b),
        point.follows(inter_blocks_symbols(a, delta_t_max) + rest_a),
        point.follows(inter_blocks_symbols(b, delta_t_max) + rest_b),
    ensures
        a == b,
        point.after_all(inter_blocks_symbols(a, delta_t_max)).follows(rest_a),
        point.after_all(inter_blocks_symbols(a, delta_t_max)).follows(rest_b),
    decreases a.len(),
{
    if a.len() == 0 {
        assert(a =~= b);
    } else {
        assert(a.skip(0) =~= a);
        assert(b.skip(0) =~= b);
        lemma_inter_blocks_next(a, 0, delta_t_max, rest_a);
        lemma_inter_blocks_next(b, 0, delta_t_max, rest_b);
        let others_a = inter_blocks_symbols(a.skip(1), delta_t_max) + rest_a;
        let others_b = inter_blocks_symbols(b.skip(1), delta_t_max) + rest_b;
        assert(a[0].valid(delta_t_max) && a[0].canonical());
        assert(b[0].valid(delta_t_max) && b[0].canonical());
        lemma_inter_block_determined(point, a[0], others_a, b[0], others_b, delta_t_max);
        assert forall|i: int| 0 <= i < a.skip(1).len() implies (#[trigger] a.skip(1)[i]).valid(
            delta_t_max,
        ) && a.skip(1)[i].canonical() by {
            assert(a.skip(1)[i] == a[i + 1]);
        }
        assert forall|i: int| 0 <= i < b.skip(1).len() implies (#[trigger] b.skip(1)[i]).valid(
            delta_t_max,
        ) && b.skip(1)[i].canonical() by {
            assert(b.skip(1)[i] == b[i + 1]);
        }
        lemma_inter_blocks_determined(
            point.after_all(a[0].symbols(delta_t_max)),
            a.skip(1),
            rest_a,
            b.skip(1),
            rest_b,
            delta_t_max,
        );
        assert forall|i: int| 0 <= i < a.len() implies a[i] == b[i] by {
            if i > 0 {
                assert(a.skip(1)[i - 1] == a[i]);
                assert(b.skip(1)[i - 1] == b[i]);
            }
        }
        assert(a =~= b);
    }
    lemma_follows_split(point, inter_blocks_symbols(a, delta_t_max), rest_a);
    lemma_follows_split(point, inter_blocks_symbols(a, delta_t_max), rest_b);
}

/// Two cubes whose writing comes from one point are the same cube, and
/// what follows either comes from the point after it.
pub proof fn lemma_cube_determined(
    point: DecoderPoint,
    a: AduCubeView,
    rest_a: Seq<Symbol>,
    b: AduCubeView,
    rest_b: Seq<Symbol>,
    delta_t_max: DeltaT,
)
    requires
        delta_t_max <= MAX_DELTA_T,
        a.valid(delta_t_max),
        a.canonical(),
        b.valid(delta_t_max),
        b.canonical(),
        point.follows(a.symbols(delta_t_max) + rest_a),
        point.follows(b.symbols(delta_t_max) + rest_b),
    ensures
        a == b,
        point.after_all(a.symbols(delta_t_max)).follows(rest_a),
        point.after_all(a.symbols(delta_t_max)).follows(rest_b),
{
    lemma_cube_nested(a, delta_t_max, rest_a);
    lemma_cube_nested(b, delta_t_max, rest_b);
    let switch = seq![Symbol::Context(U8_GENERAL_CONTEXT)];
    let blocks_a = inter_blocks_symbols(a.inter_blocks, delta_t_max) + rest_a;
    let blocks_b = inter_blocks_symbols(b.inter_blocks, delta_t_max) + rest_b;
    let count_a = u16_symbols(a.inter_blocks.len() as u16) + blocks_a;
    let count_b = u16_symbols(b.inter_blocks.len() as u16) + blocks_b;
    let intra_a = a.intra_block.symbols(delta_t_max) + (switch + count_a);
    let intra_b = b.intra_block.symbols(delta_t_max) + (switch + count_b);
    let x_a = u8_symbols(a.idx_x) + intra_a;
    let x_b = u8_symbols(b.idx_x) + intra_b;
    lemma_piece_agrees(point, switch, u8_symbols(a.idx_y) + x_a, u8_symbols(b.idx_y) + x_b);
    let step1 = point.after_all(switch);
    lemma_u8_determined(step1, a.idx_y, x_a, b.idx_y, x_b);
    let step2 = step1.after_all(u8_symbols(a.idx_y));
    lemma_u8_determined(step2, a.idx_x, intra_a, b.idx_x, intra_b);
    let step3 = step2.after_all(u8_symbols(a.idx_x));
    lemma_intra_block_determined(
        step3,
        a.intra_block,
        switch + count_a,
        b.intra_block,
        switch + count_b,
        delta_t_max,
    );
    let step4 = step3.after_all(a.intra_block.symbols(delta_t_max));
    lemma_piece_agrees(step4, switch, count_a, count_b);
    let step5 = step4.after_all(switch);
    lemma_u16_determined(
        step5,
        a.inter_blocks.len() as u16,
        blocks_a,
        b.inter_blocks.len() as u16,
        blocks_b,
    );
    let step6 = step5.after_all(u16_symbols(a.inter_blocks.len() as u16));
    lemma_inter_blocks_determined(
        step6,
        a.inter_blocks,
        rest_a,
        b.inter_blocks,
        rest_b,
        delta_t_max,
    );
    lemma_follows_split(point, a.symbols(delta_t_max), rest_a);
    lemma_follows_split(point, a.symbols(delta_t_max), rest_b);
}

} // verus!
