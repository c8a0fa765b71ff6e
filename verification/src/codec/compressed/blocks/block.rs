//! Blocks, cubes and frames: where incoming events are collected, and the
//! prediction that turns neighbouring events into residuals.

use vstd::prelude::*;
use vstd::arithmetic::power2::pow2;
use vstd::std_specs::bits::u32_leading_zeros;
use vstd::std_specs::convert::FromSpec;
use std::collections::HashMap;
use crate::codec::compressed::blocks::{
    DResidual, DeltaTResidual, EventResidual, D_ENCODE_NO_EVENT,
};
use crate::{Coord, DeltaT, Event, EventCoordless};

verus! {

/// The time delta that is expected of an event whose decimation differs by
/// `d_resid` from that of `previous`. A step of k in D doubles the
/// integration window k times, so the expected delta is scaled by 2^k and
/// capped at `dtm`. A larger step, a step that leaves too little headroom in
/// the previous delta, and any step downwards predict the previous delta.
pub open spec fn predicted_delta_t(previous: EventCoordless, d_resid: int, dtm: DeltaT) -> int {
    if 1 <= d_resid <= 20 && d_resid <= u32_leading_zeros(previous.delta_t) / 2 {
        let scaled = previous.delta_t * pow2(d_resid as nat);
        if scaled <= dtm {
            scaled
        } else {
            dtm as int
        }
    } else {
        previous.delta_t as int
    }
}

/// The event that `residual` describes relative to `previous`, if its fields
/// fit their types.
pub open spec fn spec_reconstruct(
    previous: EventCoordless,
    residual: EventResidual,
    dtm: DeltaT,
) -> Option<EventCoordless> {
    let d = previous.d + residual.d;
    let delta_t = predicted_delta_t(previous, residual.d as int, dtm) + residual.delta_t;
    if 0 <= d <= 255 && 0 <= delta_t <= 0xffff_ffff {
        Some(EventCoordless { d: d as u8, delta_t: delta_t as u32 })
    } else {
        None
    }
}

proof fn lemma_shift_scales(x: u32, k: u32)
    requires
        1 <= k <= 16,
        2 * k <= u32_leading_zeros(x),
    ensures
        x * pow2(k as nat) <= 0xffff_ffff,
        (x << k) == x * pow2(k as nat),
{
    vstd::std_specs::bits::axiom_u32_leading_zeros(x);
    let z = u32_leading_zeros(x);
    let rest: u32 = (32 - z) as u32;
    assert(x >> rest == 0);
    let one: u32 = 1;
    assert(x as u64 * ((one << k) as u64) <= 0xffff_ffffu64 && (x << k) as u64 == x as u64 * ((one
        << k) as u64) && (one << k) <= 0x1_0000u32) by (bit_vector)
        requires
            1 <= k <= 16,
            2 * k <= z <= 32,
            rest == 32 - z,
            x >> rest == 0,
            one == 1u32,
    ;
    vstd::arithmetic::power2::lemma2_to64();
    vstd::arithmetic::power2::lemma_pow2_strictly_increases(k as nat, 17);
    vstd::bits::lemma_u32_shl_is_mul(one, k);
}

/// How far `next` departs from what `previous` predicts: the change in D,
/// and the difference between the time delta of `next` and the prediction.
pub fn predict_residual_from_prev(
    previous: &EventCoordless,
    next: &EventCoordless,
    dtm: DeltaT,
) -> (residual: EventResidual)
    ensures
        residual.d == next.d - previous.d,
        residual.delta_t == next.delta_t - predicted_delta_t(
            *previous,
            next.d - previous.d,
            dtm,
        ),
{
    let d_resid: DResidual = next.d as DResidual - previous.d as DResidual;
    let prev_dt: DeltaT = previous.delta_t;
    let zeros: u32 = prev_dt.leading_zeros();
    proof {
        vstd::std_specs::bits::axiom_u32_leading_zeros(prev_dt);
    }
    let predicted: DeltaTResidual = if 1 <= d_resid && d_resid <= 20 {
        // D has increased by a little
        let up: u32 = d_resid as u32;
        if up <= zeros / 2 {
            proof {
                lemma_shift_scales(prev_dt, up);
            }
            let scaled: DeltaTResidual = (prev_dt << up) as DeltaTResidual;
            if scaled <= dtm as DeltaTResidual {
                scaled
            } else {
                dtm as DeltaTResidual
            }
        } else {
            prev_dt as DeltaTResidual
        }
    } else if -20 <= d_resid && d_resid <= -1 {
        let down: u32 = (-d_resid) as u32;
        if down <= 32 - zeros {
            // A shift to the right never exceeds what it started from, so
            // the larger of the two is the previous delta.
            let halved: DeltaT = prev_dt >> down;
            assert(halved <= prev_dt) by (bit_vector)
                requires
                    halved == prev_dt >> down,
                    down < 32,
            ;
            if halved > prev_dt {
                halved as DeltaTResidual
            } else {
                prev_dt as DeltaTResidual
            }
        } else {
            prev_dt as DeltaTResidual
        }
    } else {
        // D has not changed, or has changed a whole lot
        prev_dt as DeltaTResidual
    };
    EventResidual { d: d_resid, delta_t: next.delta_t as DeltaTResidual - predicted }
}

/// The event that lies `residual` away from what `previous` predicts, or
/// nothing where such an event would not fit its fields.
pub fn reconstruct_from_prev(
    previous: &EventCoordless,
    residual: &EventResidual,
    dtm: DeltaT,
) -> (next: Option<EventCoordless>)
    ensures
        next == spec_reconstruct(*previous, *residual, dtm),
{
    let d: i32 = previous.d as i32 + residual.d as i32;
    if d < 0 || d > 255 {
        return None;
    }
    let offset = predict_residual_from_prev(previous, &EventCoordless { d: d as u8, delta_t: 0 }, dtm);
    // `offset.delta_t` is the prediction, negated
    let delta_t: i128 = residual.delta_t as i128 - offset.delta_t as i128;
    if delta_t < 0 || delta_t > 0xffff_ffff {
        return None;
    }
    Some(EventCoordless { d: d as u8, delta_t: delta_t as u32 })
}

/// Prediction loses nothing: the residual of `next` against `previous`,
/// applied to `previous` again, gives `next`.
pub proof fn lemma_reconstruct_inverts_predict(
    previous: EventCoordless,
    next: EventCoordless,
    dtm: DeltaT,
)
    ensures
        spec_reconstruct(
            previous,
            EventResidual {
                d: (next.d - previous.d) as i16,
                delta_t: (next.delta_t - predicted_delta_t(previous, next.d - previous.d, dtm)) as i64,
            },
            dtm,
        ) == Some(next),
{
    let d_resid = next.d - previous.d;
    let predicted = predicted_delta_t(previous, d_resid, dtm);
    if 1 <= d_resid <= 20 && d_resid <= u32_leading_zeros(previous.delta_t) / 2 {
        vstd::std_specs::bits::axiom_u32_leading_zeros(previous.delta_t);
        lemma_shift_scales(previous.delta_t, d_resid as u32);
    }
    assert(0 <= predicted <= 0xffff_ffff);
}

/// What can go wrong when an event is put into a block.
#[derive(Debug, Clone, Copy, PartialEq, Eq)]
pub enum BlockError {
    /// The block already holds an event at this index.
    AlreadyExists { idx: usize },
}

/// The events of one block, in row-major order.
pub type BlockEvents = [Option<EventCoordless>; 256];

/// How many of `events` are present.
pub open spec fn count_events(events: Seq<Option<EventCoordless>>) -> nat
    decreases events.len(),
{
    if events.len() == 0 {
        0
    } else {
        count_events(events.drop_last()) + if events.last() is Some {
            1nat
        } else {
            0nat
        }
    }
}

proof fn lemma_count_bounded(events: Seq<Option<EventCoordless>>)
    ensures
        count_events(events) <= events.len(),
    decreases events.len(),
{
    if events.len() > 0 {
        lemma_count_bounded(events.drop_last());
    }
}

proof fn lemma_count_none(events: Seq<Option<EventCoordless>>)
    requires
        forall|i: int| 0 <= i < events.len() ==> events[i] is None,
    ensures
        count_events(events) == 0,
    decreases events.len(),
{
    if events.len() > 0 {
        lemma_count_none(events.drop_last());
    }
}

proof fn lemma_count_after_fill(
    events: Seq<Option<EventCoordless>>,
    idx: int,
    event: EventCoordless,
)
    requires
        0 <= idx < events.len(),
        events[idx] is None,
    ensures
        count_events(events.update(idx, Some(event))) == count_events(events) + 1,
    decreases events.len(),
{
    let filled = events.update(idx, Some(event));
    if idx == events.len() - 1 {
        assert(filled.drop_last() =~= events.drop_last());
    } else {
        assert(filled.drop_last() =~= events.drop_last().update(idx, Some(event)));
        lemma_count_after_fill(events.drop_last(), idx, event);
    }
}

/// A 16×16 tile of pixels at one depth in time: at most one event for each
/// pixel.
pub struct Block {
    /// Events organized in row-major order.
    events: BlockEvents,
    fill_count: u16,
}

impl View for Block {
    type V = Seq<Option<EventCoordless>>;

    closed spec fn view(&self) -> Seq<Option<EventCoordless>> {
        self.events@
    }
}

impl Block {
    #[verifier::type_invariant]
    spec fn counted(self) -> bool {
        self.fill_count == count_events(self.events@)
    }

    /// The number of events that the block holds.
    pub closed spec fn spec_fill_count(&self) -> u16 {
        self.fill_count
    }

    /// A block without events. The indices say where the block lies; they
    /// are not kept.
    pub fn new(_block_idx_y: usize, _block_idx_x: usize, _block_idx_c: usize) -> (block: Self)
        ensures
            block@.len() == 256,
            forall|i: int| 0 <= i < 256 ==> block@[i] is None,
            block.spec_fill_count() == 0,
    {
        let events: BlockEvents = [None;256];
        proof {
            lemma_count_none(events@);
        }
        Self { events, fill_count: 0 }
    }

    /// The events of the block, in row-major order.
    pub fn events(&self) -> (events: &BlockEvents)
        ensures
            events@ == self@,
    {
        &self.events
    }

    /// The number of events that the block holds.
    #[verifier::when_used_as_spec(spec_fill_count)]
    pub fn fill_count(&self) -> (count: u16)
        ensures
            count == self.spec_fill_count(),
            count == count_events(self@),
            count <= 256,
    {
        proof {
            use_type_invariant(self);
            lemma_count_bounded(self.events@);
        }
        self.fill_count
    }

    /// Whether every pixel of the block has its event.
    pub fn is_filled(&self) -> (filled: bool)
        ensures
            filled == (count_events(self@) == 256),
    {
        proof {
            use_type_invariant(self);
        }
        self.fill_count == 256
    }

    /// Puts `event` at index `idx`, unless an event is there already.
    pub fn set_event(&mut self, event: &Event, idx: usize) -> (result: Result<(), BlockError>)
        requires
            idx < 256,
        ensures
            match result {
                Ok(_) => {
                    &&& old(self)@[idx as int] is None
                    &&& final(self)@ == old(self)@.update(
                        idx as int,
                        Some(EventCoordless::from_spec(*event)),
                    )
                    &&& final(self).spec_fill_count() == old(self).spec_fill_count() + 1
                },
                Err(e) => {
                    &&& old(self)@[idx as int] is Some
                    &&& e == (BlockError::AlreadyExists { idx })
                    &&& *final(self) == *old(self)
                },
            },
    {
        proof {
            use_type_invariant(&*self);
            lemma_count_bounded(self.events@);
        }
        match self.events[idx] {
            Some(_) => Err(BlockError::AlreadyExists { idx }),
            None => {
                let stripped = EventCoordless::from(*event);
                proof {
                    lemma_count_after_fill(self.events@, idx as int, stripped);
                }
                let mut events = self.events;
                events[idx] = Some(stripped);
                *self = Block { events, fill_count: self.fill_count + 1 };
                Ok(())
            },
        }
    }
}

/// The index of the first event among `events` at or after index `from`, or
/// the length of `events` where there is none.
pub open spec fn head_index(events: Seq<Option<EventCoordless>>, from: int) -> int
    decreases events.len() - from,
{
    if from < 0 || from >= events.len() {
        events.len() as int
    } else if events[from] is Some {
        from
    } else {
        head_index(events, from + 1)
    }
}

proof fn lemma_head_skips_empty(events: Seq<Option<EventCoordless>>, from: int, to: int)
    requires
        0 <= from <= to <= events.len(),
        forall|j: int| from <= j < to ==> events[j] is None,
    ensures
        head_index(events, from) == head_index(events, to),
    decreases to - from,
{
    if from < to {
        lemma_head_skips_empty(events, from + 1, to);
    }
}

/// The D-residual at index `i` of a block that is coded by itself: the
/// marker where there is no event, the decimation itself for the head
/// event, the difference to the head event's decimation for any other.
pub open spec fn intra_d_residual(events: Seq<Option<EventCoordless>>, i: int) -> int {
    let head = head_index(events, 0);
    match events[i] {
        None => D_ENCODE_NO_EVENT as int,
        Some(e) => if i == head {
            e.d as int
        } else {
            e.d - events[head]->0.d
        },
    }
}

/// The time residual at index `i` of a block that is coded by itself: zero
/// where there is no event, the delta itself for the head event, the
/// difference to what the head event predicts for any other.
pub open spec fn intra_dt_residual(
    events: Seq<Option<EventCoordless>>,
    dtm: DeltaT,
    i: int,
) -> int {
    let head = head_index(events, 0);
    match events[i] {
        None => 0,
        Some(e) => if i == head {
            e.delta_t as int
        } else {
            e.delta_t - predicted_delta_t(events[head]->0, e.d - events[head]->0.d, dtm)
        },
    }
}

/// The residuals of a block that is coded by itself, before any transform.
#[derive(Debug, Clone, Copy, PartialEq, Eq)]
pub struct IntraResiduals {
    /// The place of the head event, or 256 in a block without events.
    pub head_idx: usize,
    pub d_residuals: [DResidual; 256],
    pub dt_residuals: [DeltaTResidual; 256],
}

impl Block {
    /// The prediction residuals of the block's events against its head
    /// event, the first event in row-major order. D-residuals are kept as
    /// they are; the time residuals are what a transform and a quantizer
    /// then work on.
    pub fn get_intra_residuals(&self, dtm: DeltaT) -> (residuals: IntraResiduals)
        ensures
            residuals.head_idx == head_index(self@, 0),
            forall|i: int|
                0 <= i < 256 ==> #[trigger] residuals.d_residuals@[i] == intra_d_residual(self@, i),
            forall|i: int|
                0 <= i < 256 ==> #[trigger] residuals.dt_residuals@[i] == intra_dt_residual(
                    self@,
                    dtm,
                    i,
                ),
    {
        let mut d_residuals: [DResidual; 256] = [D_ENCODE_NO_EVENT;256];
        let mut dt_residuals: [DeltaTResidual; 256] = [0;256];
        let mut head: Option<EventCoordless> = None;
        let mut head_idx: usize = 256;
        let mut idx: usize = 0;
        while idx < 256
            invariant
                idx <= 256,
                self.events@.len() == 256,
                match head {
                    None => head_idx == 256 && forall|j: int| 0 <= j < idx ==> self.events@[j] is None,
                    Some(h) => head_idx < idx && head_idx == head_index(self.events@, 0)
                        && self.events@[head_idx as int] == Some(h),
                },
                forall|i: int|
                    0 <= i < idx ==> #[trigger] d_residuals@[i] == intra_d_residual(self.events@, i),
                forall|i: int|
                    0 <= i < idx ==> #[trigger] dt_residuals@[i] == intra_dt_residual(
                        self.events@,
                        dtm,
                        i,
                    ),
                forall|i: int| idx <= i < 256 ==> #[trigger] d_residuals@[i] == D_ENCODE_NO_EVENT,
                forall|i: int| idx <= i < 256 ==> #[trigger] dt_residuals@[i] == 0,
            decreases 256 - idx,
        {
            match self.events[idx] {
                None => {},
                Some(event) => {
                    match head {
                        None => {
                            // The first event encountered is encoded directly
                            proof {
                                lemma_head_skips_empty(self.events@, 0, idx as int);
                            }
                            head = Some(event);
                            head_idx = idx;
                            d_residuals[idx] = event.d as DResidual;
                            dt_residuals[idx] = event.delta_t as DeltaTResidual;
                        },
                        Some(h) => {
                            let residual = predict_residual_from_prev(&h, &event, dtm);
                            d_residuals[idx] = residual.d;
                            dt_residuals[idx] = residual.delta_t;
                        },
                    }
                },
            }
            idx += 1;
        }
        proof {
            if head is None {
                lemma_head_skips_empty(self.events@, 0, 256);
            }
        }
        IntraResiduals { head_idx, d_residuals, dt_residuals }
    }
}

/// One colour channel of a cube, as the blocks' contents and, for each
/// pixel, the depth at which its next event goes.
pub ghost struct ChannelView {
    pub blocks: Seq<Seq<Option<EventCoordless>>>,
    pub next: Seq<int>,
}

impl ChannelView {
    /// A channel of one block that holds nothing.
    pub open spec fn fresh() -> ChannelView {
        ChannelView {
            blocks: seq![Seq::new(256, |i: int| None::<EventCoordless>)],
            next: Seq::new(256, |i: int| 0int),
        }
    }

    /// Every pixel's events fill the blocks from the first on, without a
    /// gap, up to the depth recorded for that pixel.
    pub open spec fn wf(self) -> bool {
        &&& self.blocks.len() >= 1
        &&& self.next.len() == 256
        &&& forall|k: int| 0 <= k < self.blocks.len() ==> (#[trigger] self.blocks[k]).len() == 256
        &&& forall|p: int| 0 <= p < 256 ==> 0 <= #[trigger] self.next[p] <= self.blocks.len()
        &&& forall|k: int, p: int|
            0 <= k < self.blocks.len() && 0 <= p < 256 ==> ((#[trigger] self.blocks[k][p] is Some)
                <==> k < self.next[p])
    }

    /// The channel after `event` arrived for pixel `pos`: a block is
    /// appended where the pixel's depth has reached the end, and the event
    /// goes into the block at that depth.
    pub open spec fn add(self, pos: int, event: EventCoordless) -> ChannelView {
        let depth = self.next[pos];
        let blocks = if depth >= self.blocks.len() {
            self.blocks.push(Seq::new(256, |i: int| None::<EventCoordless>))
        } else {
            self.blocks
        };
        ChannelView {
            blocks: blocks.update(depth, blocks[depth].update(pos, Some(event))),
            next: self.next.update(pos, depth + 1),
        }
    }

    /// The channel after each of `events` arrived for pixel `pos`, in turn.
    pub open spec fn add_all(self, pos: int, events: Seq<EventCoordless>) -> ChannelView
        decreases events.len(),
    {
        if events.len() == 0 {
            self
        } else {
            self.add_all(pos, events.drop_last()).add(pos, events.last())
        }
    }
}

/// A well-formed channel stays so when an event arrives.
pub proof fn lemma_add_keeps_wf(channel: ChannelView, pos: int, event: EventCoordless)
    requires
        channel.wf(),
        0 <= pos < 256,
    ensures
        channel.add(pos, event).wf(),
        channel.add(pos, event).next[pos] == channel.next[pos] + 1,
        channel.add(pos, event).blocks.len() >= channel.blocks.len(),
        forall|p: int| 0 <= p < 256 && p != pos ==> channel.add(pos, event).next[p] == channel.next[p],
{
    let after = channel.add(pos, event);
    let depth = channel.next[pos];
    let blocks = if depth >= channel.blocks.len() {
        channel.blocks.push(Seq::new(256, |i: int| None::<EventCoordless>))
    } else {
        channel.blocks
    };
    assert forall|k: int, p: int| 0 <= k < after.blocks.len() && 0 <= p < 256 implies ((
    #[trigger] after.blocks[k][p] is Some) <==> k < after.next[p]) by {
        if k < channel.blocks.len() {
            assert((channel.blocks[k][p] is Some) <==> k < channel.next[p]);
        }
    }
    assert forall|k: int| 0 <= k < after.blocks.len() implies (#[trigger] after.blocks[k]).len()
        == 256 by {
        if k < channel.blocks.len() {
            assert(channel.blocks[k].len() == 256);
        }
    }
}

/// After N events arrived for one pixel of a well-formed channel, the
/// pixel's depth has grown by N, the channel holds at least that many
/// blocks, and every block below that depth holds an event for the pixel.
pub proof fn lemma_depth_counts_adds(channel: ChannelView, pos: int, events: Seq<EventCoordless>)
    requires
        channel.wf(),
        0 <= pos < 256,
    ensures
        channel.add_all(pos, events).wf(),
        channel.add_all(pos, events).next[pos] == channel.next[pos] + events.len(),
        channel.add_all(pos, events).blocks.len() >= channel.next[pos] + events.len(),
        forall|k: int|
            0 <= k < channel.next[pos] + events.len() ==> (#[trigger] channel.add_all(
                pos,
                events,
            ).blocks[k])[pos] is Some,
    decreases events.len(),
{
    if events.len() > 0 {
        lemma_depth_counts_adds(channel, pos, events.drop_last());
        lemma_add_keeps_wf(channel.add_all(pos, events.drop_last()), pos, events.last());
    }
    let after = channel.add_all(pos, events);
    assert forall|k: int| 0 <= k < channel.next[pos] + events.len() implies (
    #[trigger] after.blocks[k])[pos] is Some by {
        assert((after.blocks[k][pos] is Some) <==> k < after.next[pos]);
    }
}

/// The channel that `blocks` and `map` stand for.
pub open spec fn channel_view(blocks: Seq<Block>, map: Seq<usize>) -> ChannelView {
    ChannelView {
        blocks: Seq::new(blocks.len(), |k: int| blocks[k]@),
        next: Seq::new(map.len(), |p: int| map[p] as int),
    }
}

impl ChannelView {
    /// Whether the slot that the next event for pixel `pos` goes to holds
    /// an event already. In a well-formed channel it never does.
    pub open spec fn occupied(self, pos: int) -> bool {
        self.next[pos] < self.blocks.len() && self.blocks[self.next[pos]][pos] is Some
    }
}

/// In a well-formed channel the slot for the next event of a pixel is free.
pub proof fn lemma_wf_not_occupied(channel: ChannelView, pos: int)
    requires
        channel.wf(),
        0 <= pos < 256,
    ensures
        !channel.occupied(pos),
{
    let depth = channel.next[pos];
    if depth < channel.blocks.len() {
        assert((channel.blocks[depth][pos] is Some) <==> depth < channel.next[pos]);
    }
}

/// Puts `event` into the channel made of `block_vec` and `block_idx_map`,
/// for the pixel at index `idx` of the tile: a block is appended where the
/// pixel's depth has reached the end, and the event goes into the block at
/// that depth. Where that slot holds an event already, the event is
/// refused and nothing changes.
pub fn set_event_for_channel(
    block_vec: &mut Vec<Block>,
    block_idx_map: &mut [usize; 256],
    event: Event,
    idx: usize,
) -> (result: Result<(), BlockError>)
    requires
        idx < 256,
        old(block_idx_map)@[idx as int] <= old(block_vec)@.len(),
    ensures
        match result {
            Ok(_) => {
                &&& !channel_view(old(block_vec)@, old(block_idx_map)@).occupied(idx as int)
                &&& channel_view(final(block_vec)@, final(block_idx_map)@) == channel_view(
                    old(block_vec)@,
                    old(block_idx_map)@,
                ).add(idx as int, EventCoordless::from_spec(event))
            },
            Err(e) => {
                &&& channel_view(old(block_vec)@, old(block_idx_map)@).occupied(idx as int)
                &&& e == (BlockError::AlreadyExists { idx })
                &&& final(block_vec)@ == old(block_vec)@
                &&& final(block_idx_map)@ == old(block_idx_map)@
            },
        },
        channel_view(old(block_vec)@, old(block_idx_map)@).wf() ==> result is Ok && channel_view(
            final(block_vec)@,
            final(block_idx_map)@,
        ).wf(),
{
    let ghost before = channel_view(block_vec@, block_idx_map@);
    proof {
        assert(before.next[idx as int] == block_idx_map@[idx as int]);
        if before.wf() {
            lemma_add_keeps_wf(before, idx as int, EventCoordless::from_spec(event));
            lemma_wf_not_occupied(before, idx as int);
        }
    }
    if block_idx_map[idx] >= block_vec.len() {
        block_vec.push(Block::new(0, 0, 0));
    }
    let depth = block_idx_map[idx];
    let count = block_vec.len();
    let ghost grown = block_vec@;
    proof {
        if depth < before.blocks.len() {
            assert(before.blocks[depth as int] == grown[depth as int]@);
            assert(grown =~= old(block_vec)@);
        } else {
            assert(grown[depth as int]@[idx as int] is None);
        }
        assert(depth < count);
    }
    match block_vec[depth].set_event(&event, idx) {
        Ok(_) => {
            block_idx_map[idx] = depth + 1;
            proof {
                let after = channel_view(block_vec@, block_idx_map@);
                let expected = before.add(idx as int, EventCoordless::from_spec(event));
                assert(after.next =~= expected.next);
                assert forall|k: int| 0 <= k < after.blocks.len() implies after.blocks[k]
                    == expected.blocks[k] by {
                    if k != depth {
                        assert(block_vec@[k] == grown[k]);
                    }
                    if k < before.blocks.len() {
                        assert(before.blocks[k] == grown[k]@);
                    } else {
                        assert(grown[k]@ =~= Seq::new(256, |i: int| None::<EventCoordless>));
                    }
                }
                assert(after.blocks =~= expected.blocks);
            }
            Ok(())
        },
        Err(e) => {
            proof {
                assert(block_vec@ =~= old(block_vec)@);
            }
            Err(e)
        },
    }
}

/// A single tile of pixels over time. For each colour channel it holds a
/// growing sequence of blocks: the first is coded by itself, those after it
/// are coded against what came before.
pub struct Cube {
    blocks_r: Vec<Block>,
    blocks_g: Vec<Block>,
    blocks_b: Vec<Block>,
    cube_idx_y: usize,
    cube_idx_x: usize,
    /// Keeps track of the block vec index that is currently being written to for each coordinate.
    block_idx_map_r: [usize; 256],
    block_idx_map_g: [usize; 256],
    block_idx_map_b: [usize; 256],
}

impl Cube {
    /// Each channel is well-formed.
    pub closed spec fn wf(&self) -> bool {
        &&& channel_view(self.blocks_r@, self.block_idx_map_r@).wf()
        &&& channel_view(self.blocks_g@, self.block_idx_map_g@).wf()
        &&& channel_view(self.blocks_b@, self.block_idx_map_b@).wf()
    }

    /// The red (0), green (1) or blue (2) channel of the cube.
    pub closed spec fn channel(&self, c: int) -> ChannelView {
        if c == 0 {
            channel_view(self.blocks_r@, self.block_idx_map_r@)
        } else if c == 1 {
            channel_view(self.blocks_g@, self.block_idx_map_g@)
        } else {
            channel_view(self.blocks_b@, self.block_idx_map_b@)
        }
    }

    /// A well-formed cube has three well-formed channels.
    pub proof fn lemma_channels_wf(&self, c: int)
        requires
            self.wf(),
        ensures
            self.channel(c).wf(),
    {
    }

    /// The row and the column of the cube within its frame.
    pub closed spec fn spec_idx(&self) -> (usize, usize) {
        (self.cube_idx_y, self.cube_idx_x)
    }

    /// A cube at the given row and column, with one empty block in each channel.
    pub fn new(cube_idx_y: usize, cube_idx_x: usize, _cube_idx_c: usize) -> (cube: Self)
        ensures
            cube.wf(),
            cube.spec_idx() == (cube_idx_y, cube_idx_x),
            forall|c: int| 0 <= c <= 2 ==> #[trigger] cube.channel(c) == ChannelView::fresh(),
    {
        let blocks_r: Vec<Block> = vec![Block::new(0, 0, 0)];
        let blocks_g: Vec<Block> = vec![Block::new(0, 0, 0)];
        let blocks_b: Vec<Block> = vec![Block::new(0, 0, 0)];
        let block_idx_map_r: [usize; 256] = [0;256];
        let block_idx_map_g: [usize; 256] = [0;256];
        let block_idx_map_b: [usize; 256] = [0;256];
        proof {
            let fresh = ChannelView::fresh();
            let r = channel_view(blocks_r@, block_idx_map_r@);
            assert(r.blocks[0] =~= fresh.blocks[0]);
            assert(r.blocks =~= fresh.blocks);
            assert(r.next =~= fresh.next);
            let g = channel_view(blocks_g@, block_idx_map_g@);
            assert(g.blocks[0] =~= fresh.blocks[0]);
            assert(g.blocks =~= fresh.blocks);
            assert(g.next =~= fresh.next);
            let b = channel_view(blocks_b@, block_idx_map_b@);
            assert(b.blocks[0] =~= fresh.blocks[0]);
            assert(b.blocks =~= fresh.blocks);
            assert(b.next =~= fresh.next);
            assert(fresh.wf());
        }
        Self {
            blocks_r,
            blocks_g,
            blocks_b,
            cube_idx_y,
            cube_idx_x,
            block_idx_map_r,
            block_idx_map_g,
            block_idx_map_b,
        }
    }

    /// The blocks of the red channel, and of a source without colour.
    pub fn blocks_r(&self) -> (blocks: &Vec<Block>)
        ensures
            blocks@.len() == self.channel(0).blocks.len(),
            forall|k: int| 0 <= k < blocks@.len() ==> (#[trigger] blocks@[k])@ == self.channel(0).blocks[k],
    {
        &self.blocks_r
    }

    /// The blocks of the green channel.
    pub fn blocks_g(&self) -> (blocks: &Vec<Block>)
        ensures
            blocks@.len() == self.channel(1).blocks.len(),
            forall|k: int| 0 <= k < blocks@.len() ==> (#[trigger] blocks@[k])@ == self.channel(1).blocks[k],
    {
        &self.blocks_g
    }

    /// The blocks of the blue channel.
    pub fn blocks_b(&self) -> (blocks: &Vec<Block>)
        ensures
            blocks@.len() == self.channel(2).blocks.len(),
            forall|k: int| 0 <= k < blocks@.len() ==> (#[trigger] blocks@[k])@ == self.channel(2).blocks[k],
    {
        &self.blocks_b
    }

    /// The row of the cube within its frame.
    pub fn cube_idx_y(&self) -> (y: usize)
        ensures
            y == self.spec_idx().0,
    {
        self.cube_idx_y
    }

    /// The column of the cube within its frame.
    pub fn cube_idx_x(&self) -> (x: usize)
        ensures
            x == self.spec_idx().1,
    {
        self.cube_idx_x
    }

    /// Puts `event` into the channel that its coordinate names (an event
    /// without a channel goes to red), for the pixel at index `block_idx`
    /// of the tile. The other channels stay as they are.
    pub fn set_event(&mut self, event: Event, block_idx: usize) -> (result: Result<(), BlockError>)
        requires
            old(self).wf(),
            block_idx < 256,
            event.coord.channel() <= 2,
        ensures
            final(self).wf(),
            result is Ok,
            final(self).channel(event.coord.channel()) == old(self).channel(
                event.coord.channel(),
            ).add(block_idx as int, EventCoordless::from_spec(event)),
            forall|c: int|
                0 <= c <= 2 && c != event.coord.channel() ==> #[trigger] final(self).channel(c)
                    == old(self).channel(c),
            final(self).spec_idx() == old(self).spec_idx(),
    {
        let channel: u8 = match event.coord.c {
            Some(c) => c,
            None => 0,
        };
        proof {
            let red = channel_view(self.blocks_r@, self.block_idx_map_r@);
            let green = channel_view(self.blocks_g@, self.block_idx_map_g@);
            let blue = channel_view(self.blocks_b@, self.block_idx_map_b@);
            assert(red.next[block_idx as int] == self.block_idx_map_r@[block_idx as int]);
            assert(green.next[block_idx as int] == self.block_idx_map_g@[block_idx as int]);
            assert(blue.next[block_idx as int] == self.block_idx_map_b@[block_idx as int]);
        }
        if channel == 0 {
            set_event_for_channel(&mut self.blocks_r, &mut self.block_idx_map_r, event, block_idx)
        } else if channel == 1 {
            set_event_for_channel(&mut self.blocks_g, &mut self.block_idx_map_g, event, block_idx)
        } else {
            set_event_for_channel(&mut self.blocks_b, &mut self.block_idx_map_b, event, block_idx)
        }
    }
}

/// Where an event lies: the index of its cube within the frame, and the
/// index of its pixel within the cube's tile.
#[derive(Debug, Clone, Copy, PartialEq, Eq)]
pub struct FrameToBlockIndexMap {
    pub cube_idx: usize,
    pub block_idx: usize,
}

/// The cube index and the in-tile index of `coord` in a frame that is
/// `cube_width` cubes wide. Cubes and pixels are counted row by row.
pub open spec fn spec_block_index(coord: Coord, cube_width: int) -> (int, int) {
    ((coord.y / 16) * cube_width + coord.x / 16, (coord.y % 16) * 16 + coord.x % 16)
}

/// The number under which the frame remembers `coord`.
pub open spec fn coord_key(coord: Coord) -> u64 {
    (coord.x + coord.y * 0x1_0000 + match coord.c {
        None => 0,
        Some(c) => (c + 1) * 0x1_0000_0000,
    }) as u64
}

proof fn lemma_coord_key_injective(a: Coord, b: Coord)
    requires
        coord_key(a) == coord_key(b),
    ensures
        a == b,
{
    let ca: int = match a.c {
        None => 0,
        Some(c) => c + 1,
    };
    let cb: int = match b.c {
        None => 0,
        Some(c) => c + 1,
    };
    assert(a.x + a.y * 0x1_0000 + ca * 0x1_0000_0000 == b.x + b.y * 0x1_0000 + cb * 0x1_0000_0000);
}

fn coord_to_key(coord: &Coord) -> (key: u64)
    ensures
        key == coord_key(*coord),
{
    let channel: u64 = match coord.c {
        None => 0,
        Some(c) => (c as u64 + 1) * 0x1_0000_0000,
    };
    coord.x as u64 + coord.y as u64 * 0x1_0000 + channel
}

/// The cubes that cover an image plane, for the span of one access
/// decodable unit.
pub struct Frame {
    cubes: Vec<Cube>,
    cube_width: usize,
    cube_height: usize,
    color: bool,
    /// Maps event coordinates to their cube index and block index
    index_hashmap: HashMap<u64, FrameToBlockIndexMap>,
}

impl Frame {
    /// The cubes of the frame, row by row.
    pub closed spec fn spec_cubes(&self) -> Seq<Cube> {
        self.cubes@
    }

    /// The number of cubes in a row.
    pub closed spec fn spec_cube_width(&self) -> usize {
        self.cube_width
    }

    /// The number of rows of cubes.
    pub closed spec fn spec_cube_height(&self) -> usize {
        self.cube_height
    }

    /// Whether the source has colour.
    pub closed spec fn spec_color(&self) -> bool {
        self.color
    }

    /// What the frame remembers of `coord`, if it has seen it.
    pub closed spec fn cached(&self, coord: Coord) -> Option<FrameToBlockIndexMap> {
        if self.index_hashmap@.contains_key(coord_key(coord)) {
            Some(self.index_hashmap@[coord_key(coord)])
        } else {
            None
        }
    }

    /// The frame holds a cube for each place of its grid, every cube is
    /// well-formed, and what it remembers of a coordinate is where the
    /// coordinate lies.
    pub closed spec fn wf(&self) -> bool {
        &&& self.cubes@.len() == self.cube_width * self.cube_height
        &&& forall|i: int| 0 <= i < self.cubes@.len() ==> (#[trigger] self.cubes@[i]).wf()
        &&& forall|coord: Coord|
            self.index_hashmap@.contains_key(#[trigger] coord_key(coord)) ==> {
                &&& self.index_hashmap@[coord_key(coord)].cube_idx == spec_block_index(
                    coord,
                    self.cube_width as int,
                ).0
                &&& self.index_hashmap@[coord_key(coord)].block_idx == spec_block_index(
                    coord,
                    self.cube_width as int,
                ).1
            }
    }

    /// Whether `coord` lies in one of the frame's cubes.
    pub open spec fn in_frame(&self, coord: Coord) -> bool {
        coord.x / 16 < self.spec_cube_width() && coord.y / 16 < self.spec_cube_height()
    }

    /// Whether the frame has a cube at the index that `coord` falls to. It
    /// has one for every coordinate that lies in one of its cubes.
    pub open spec fn holds(&self, coord: Coord) -> bool {
        spec_block_index(coord, self.spec_cube_width() as int).0 < self.spec_cubes().len()
    }

    /// What a well-formed frame remembers of a coordinate is where the
    /// coordinate lies, and the frame has as many cubes as its grid has places.
    pub proof fn lemma_wf(&self, coord: Coord)
        requires
            self.wf(),
        ensures
            self.spec_cubes().len() == self.spec_cube_width() * self.spec_cube_height(),
            forall|i: int| 0 <= i < self.spec_cubes().len() ==> (#[trigger] self.spec_cubes()[i]).wf(),
            self.cached(coord) matches Some(index) ==> {
                &&& index.cube_idx == spec_block_index(coord, self.spec_cube_width() as int).0
                &&& index.block_idx == spec_block_index(coord, self.spec_cube_width() as int).1
            },
            self.in_frame(coord) ==> self.holds(coord),
    {
        if self.in_frame(coord) {
            lemma_cube_index_in_range(
                coord.y as int / 16,
                coord.x as int / 16,
                self.cube_width as int,
                self.cube_height as int,
            );
        }
    }

    /// Creates a new compression frame with the given dimensions, in
    /// pixels. A cube covers 16×16 pixels; what is left over at the right
    /// and at the bottom has no cube.
    pub fn new(width: usize, height: usize, color: bool) -> (frame: Self)
        requires
            (width / 16) * (height / 16) <= usize::MAX,
        ensures
            frame.wf(),
            frame.spec_cube_width() == width / 16,
            frame.spec_cube_height() == height / 16,
            frame.spec_color() == color,
            frame.spec_cubes().len() == (width / 16) * (height / 16),
            forall|i: int|
                0 <= i < frame.spec_cubes().len() ==> {
                    &&& (#[trigger] frame.spec_cubes()[i]).spec_idx().0 == i / (width as int / 16)
                    &&& frame.spec_cubes()[i].spec_idx().1 == i % (width as int / 16)
                },
            forall|i: int, c: int|
                0 <= i < frame.spec_cubes().len() && 0 <= c <= 2 ==> (
                #[trigger] frame.spec_cubes()[i].channel(c)) == ChannelView::fresh(),
            forall|coord: Coord| frame.cached(coord) is None,
    {
        let cube_width: usize = width / 16;
        let cube_height: usize = height / 16;
        let mut cubes: Vec<Cube> = Vec::new();
        let mut y: usize = 0;
        proof {
            assert(0 * cube_width == 0);
        }
        while y < cube_height
            invariant
                y <= cube_height,
                cubes@.len() == y * cube_width,
                forall|i: int| 0 <= i < cubes@.len() ==> (#[trigger] cubes@[i]).wf(),
                forall|i: int, c: int|
                    0 <= i < cubes@.len() && 0 <= c <= 2 ==> (#[trigger] cubes@[i].channel(c))
                        == ChannelView::fresh(),
                forall|i: int|
                    0 <= i < cubes@.len() ==> {
                        &&& (#[trigger] cubes@[i]).spec_idx().0 == i / (cube_width as int)
                        &&& cubes@[i].spec_idx().1 == i % (cube_width as int)
                    },
            decreases cube_height - y,
        {
            let mut x: usize = 0;
            while x < cube_width
                invariant
                    y < cube_height,
                    x <= cube_width,
                    cubes@.len() == y * cube_width + x,
                    forall|i: int| 0 <= i < cubes@.len() ==> (#[trigger] cubes@[i]).wf(),
                    forall|i: int, c: int|
                        0 <= i < cubes@.len() && 0 <= c <= 2 ==> (#[trigger] cubes@[i].channel(c))
                            == ChannelView::fresh(),
                    forall|i: int|
                        0 <= i < cubes@.len() ==> {
                            &&& (#[trigger] cubes@[i]).spec_idx().0 == i / (cube_width as int)
                            &&& cubes@[i].spec_idx().1 == i % (cube_width as int)
                        },
                decreases cube_width - x,
            {
                let cube = Cube::new(y, x, 0);
                proof {
                    vstd::arithmetic::div_mod::lemma_fundamental_div_mod_converse(
                        y * cube_width + x,
                        cube_width as int,
                        y as int,
                        x as int,
                    );
                }
                cubes.push(cube);
                x += 1;
            }
            proof {
                assert((y + 1) * cube_width == y * cube_width + cube_width) by (nonlinear_arith);
            }
            y += 1;
        }
        let index_hashmap: HashMap<u64, FrameToBlockIndexMap> = HashMap::new();
        proof {
            assert(cube_height * cube_width == cube_width * cube_height) by (nonlinear_arith);
        }
        Self { cubes, cube_width, cube_height, color, index_hashmap }
    }

    /// The cubes of the frame, row by row.
    pub fn cubes(&self) -> (cubes: &Vec<Cube>)
        ensures
            cubes@ == self.spec_cubes(),
    {
        &self.cubes
    }

    /// The number of cubes in a row.
    #[verifier::when_used_as_spec(spec_cube_width)]
    pub fn cube_width(&self) -> (width: usize)
        ensures
            width == self.spec_cube_width(),
    {
        self.cube_width
    }

    /// The number of rows of cubes.
    #[verifier::when_used_as_spec(spec_cube_height)]
    pub fn cube_height(&self) -> (height: usize)
        ensures
            height == self.spec_cube_height(),
    {
        self.cube_height
    }

    /// Whether the source has colour.
    #[verifier::when_used_as_spec(spec_color)]
    pub fn color(&self) -> (color: bool)
        ensures
            color == self.spec_color(),
    {
        self.color
    }

    /// What the frame remembers of `coord`: nothing before an event at
    /// `coord` was added, the place of `coord` after that.
    pub fn lookup(&self, coord: &Coord) -> (index: Option<FrameToBlockIndexMap>)
        ensures
            index == self.cached(*coord),
    {
        broadcast use vstd::std_specs::hash::group_hash_axioms;

        let key = coord_to_key(coord);
        match self.index_hashmap.get(&key) {
            Some(index) => Some(*index),
            None => None,
        }
    }

    /// Returns the frame-level index (cube index) and the cube-level index (block index) of the event.
    pub fn event_coord_to_block_idx(&self, event: &Event) -> (index: FrameToBlockIndexMap)
        requires
            (event.coord.y / 16) * self.spec_cube_width() + event.coord.x / 16 <= usize::MAX,
        ensures
            index.cube_idx == spec_block_index(event.coord, self.spec_cube_width() as int).0,
            index.block_idx == spec_block_index(event.coord, self.spec_cube_width() as int).1,
            index.block_idx < 256,
    {
        let cube_idx_y: usize = event.coord.y as usize / 16;
        let cube_idx_x: usize = event.coord.x as usize / 16;
        let block_idx_y: usize = event.coord.y as usize % 16;
        let block_idx_x: usize = event.coord.x as usize % 16;
        assert(cube_idx_y * self.cube_width <= cube_idx_y * self.cube_width + cube_idx_x);
        FrameToBlockIndexMap {
            cube_idx: cube_idx_y * self.cube_width + cube_idx_x,
            block_idx: block_idx_y * 16 + block_idx_x,
        }
    }

    /// Adds an event to the frame: to the cube at the index that its
    /// coordinate falls to, in the channel that the coordinate names.
    /// Returns the index of that cube. Every other cube and channel stays
    /// as it is, and the frame remembers where the coordinate lies.
    pub fn add_event(&mut self, event: Event) -> (result: Result<usize, BlockError>)
        requires
            old(self).wf(),
            old(self).holds(event.coord),
            event.coord.channel() <= 2,
        ensures
            final(self).wf(),
            result == Ok::<usize, BlockError>(
                spec_block_index(event.coord, old(self).spec_cube_width() as int).0 as usize,
            ),
            final(self).spec_cube_width() == old(self).spec_cube_width(),
            final(self).spec_cube_height() == old(self).spec_cube_height(),
            final(self).spec_color() == old(self).spec_color(),
            final(self).spec_cubes().len() == old(self).spec_cubes().len(),
            final(self).cached(event.coord) == Some(
                FrameToBlockIndexMap {
                    cube_idx: spec_block_index(event.coord, old(self).spec_cube_width() as int).0 as usize,
                    block_idx: spec_block_index(event.coord, old(self).spec_cube_width() as int).1 as usize,
                },
            ),
            forall|other: Coord|
                other != event.coord ==> final(self).cached(other) == old(self).cached(other),
            ({
                let index = spec_block_index(event.coord, old(self).spec_cube_width() as int);
                let channel = event.coord.channel();
                &&& 0 <= index.0 < old(self).spec_cubes().len()
                &&& final(self).spec_cubes()[index.0].channel(channel) == old(self).spec_cubes()[index.0].channel(
                    channel,
                ).add(index.1, EventCoordless::from_spec(event))
                &&& final(self).spec_cubes()[index.0].spec_idx() == old(self).spec_cubes()[index.0].spec_idx()
                &&& forall|c: int|
                    0 <= c <= 2 && c != channel ==> #[trigger] final(self).spec_cubes()[index.0].channel(c)
                        == old(self).spec_cubes()[index.0].channel(c)
                &&& forall|i: int|
                    0 <= i < old(self).spec_cubes().len() && i != index.0
                        ==> #[trigger] final(self).spec_cubes()[i] == old(self).spec_cubes()[i]
            }),
    {
        broadcast use vstd::std_specs::hash::group_hash_axioms;

        let key = coord_to_key(&event.coord);
        let ghost before = self.index_hashmap@;
        let count = self.cubes.len();
        assert((event.coord.y / 16) * self.cube_width + event.coord.x / 16 < count);
        if !self.index_hashmap.contains_key(&key) {
            let index = self.event_coord_to_block_idx(&event);
            self.index_hashmap.insert(key, index);
        }
        proof {
            assert forall|coord: Coord|
                self.index_hashmap@.contains_key(#[trigger] coord_key(coord)) implies {
                &&& self.index_hashmap@[coord_key(coord)].cube_idx == spec_block_index(
                    coord,
                    self.cube_width as int,
                ).0
                &&& self.index_hashmap@[coord_key(coord)].block_idx == spec_block_index(
                    coord,
                    self.cube_width as int,
                ).1
            } by {
                if coord_key(coord) == key {
                    lemma_coord_key_injective(coord, event.coord);
                } else {
                    assert(before.contains_key(coord_key(coord)));
                }
            }
            assert forall|other: Coord| other != event.coord implies coord_key(other) != key by {
                if coord_key(other) == key {
                    lemma_coord_key_injective(other, event.coord);
                }
            }
        }
        let index_map: FrameToBlockIndexMap = match self.index_hashmap.get(&key) {
            Some(index) => *index,
            None => FrameToBlockIndexMap { cube_idx: 0, block_idx: 0 },
        };
        let ghost cubes_before = self.cubes@;
        self.cubes[index_map.cube_idx].set_event(event, index_map.block_idx)?;
        proof {
            assert forall|i: int| 0 <= i < self.cubes@.len() implies (#[trigger] self.cubes@[i]).wf() by {
                if i != index_map.cube_idx {
                    assert(self.cubes@[i] == cubes_before[i]);
                }
            }
        }
        Ok(index_map.cube_idx)
    }
}

proof fn lemma_cube_index_in_range(y: int, x: int, width: int, height: int)
    requires
        0 <= y < height,
        0 <= x < width,
    ensures
        0 <= y * width + x < width * height,
        0 <= y * width,
{
    assert(y * width + x < width * height) by (nonlinear_arith)
        requires
            0 <= y < height,
            0 <= x < width,
    ;
    assert(0 <= y * width) by (nonlinear_arith)
        requires
            0 <= y,
            0 <= width,
    ;
}

} // verus!
