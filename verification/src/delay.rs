//! The delay buffer between decoder and playback: a bounded queue of samples
//! that drops its oldest blocks when the producer runs ahead, and from which
//! the playback callback takes exactly what it was asked for, with silence
//! where the queue runs dry.

use std::collections::VecDeque;
use vstd::prelude::*;

verus! {

/// How many playout blocks the delay buffer holds at most.
pub const DELAY_BLOCKS: usize = 100;

/// The most samples that a delay buffer for blocks of `block_samples` holds.
pub open spec fn capacity_for(block_samples: nat) -> nat {
    block_samples * 100
}

/// What is left of `samples` after whole blocks were dropped from the front,
/// one at a time, until no more than the capacity remained.
pub open spec fn trimmed<T>(samples: Seq<T>, block_samples: nat) -> Seq<T>
    decreases samples.len(),
{
    if block_samples == 0 || samples.len() <= capacity_for(block_samples) {
        samples
    } else {
        trimmed(samples.skip(block_samples as int), block_samples)
    }
}

/// How many blocks a trim drops from `len` samples: the least number that
/// brings the length within the capacity.
pub open spec fn blocks_dropped(len: nat, block_samples: nat) -> nat
    decreases len,
{
    if block_samples == 0 || len <= capacity_for(block_samples) {
        0
    } else {
        1 + blocks_dropped((len - block_samples) as nat, block_samples)
    }
}

/// The contents of a list of sample blocks.
pub open spec fn block_views<T>(blocks: Seq<Vec<T>>) -> Seq<Seq<T>> {
    Seq::new(blocks.len(), |i: int| blocks[i]@)
}

/// The queue after each of `blocks` was appended and the queue trimmed, in turn.
pub open spec fn after_blocks<T>(
    samples: Seq<T>,
    blocks: Seq<Seq<T>>,
    block_samples: nat,
) -> Seq<T>
    decreases blocks.len(),
{
    if blocks.len() == 0 {
        samples
    } else {
        trimmed(
            after_blocks(samples, blocks.drop_last(), block_samples) + blocks.last(),
            block_samples,
        )
    }
}

/// The fill level at which playback may start: four fifths of the target.
pub open spec fn prime_fill(target_size: nat) -> nat {
    target_size * 4 / 5
}

/// Delay buffer bound.  With blocks of at least one sample, a trim leaves
/// no more than the capacity.
pub proof fn lemma_trim_bound<T>(samples: Seq<T>, block_samples: nat)
    requires
        block_samples >= 1,
    ensures
        trimmed(samples, block_samples).len() <= capacity_for(block_samples),
    decreases samples.len(),
{
    if samples.len() > capacity_for(block_samples) {
        lemma_trim_bound(samples.skip(block_samples as int), block_samples);
    }
}

/// A trim keeps the newest samples: it leaves its input without a whole
/// number of blocks at the front, and drops a block only while more than
/// the capacity is queued.
pub proof fn lemma_trim_keeps_newest<T>(samples: Seq<T>, block_samples: nat)
    requires
        block_samples >= 1,
    ensures
        blocks_dropped(samples.len(), block_samples) * block_samples <= samples.len(),
        trimmed(samples, block_samples) == samples.skip(
            (blocks_dropped(samples.len(), block_samples) * block_samples) as int,
        ),
        blocks_dropped(samples.len(), block_samples) >= 1 ==> samples.len() - (blocks_dropped(
            samples.len(),
            block_samples,
        ) - 1) * block_samples > capacity_for(block_samples),
    decreases samples.len(),
{
    if samples.len() > capacity_for(block_samples) {
        let rest = samples.skip(block_samples as int);
        let k = blocks_dropped(rest.len(), block_samples);
        lemma_trim_keeps_newest(rest, block_samples);
        assert(rest.len() == samples.len() - block_samples);
        assert(blocks_dropped(samples.len(), block_samples) == 1 + k);
        assert(trimmed(samples, block_samples) == trimmed(rest, block_samples));
        let b = block_samples as int;
        let ki = k as int;
        assert((1 + ki) * b == b + ki * b) by (nonlinear_arith);
        assert(ki * b == (ki - 1) * b + b) by (nonlinear_arith);
        assert(rest.skip(ki * b) =~= samples.skip((1 + ki) * b));
        let d = blocks_dropped(samples.len(), block_samples);
        assert(d * block_samples == (1 + ki) * b) by (nonlinear_arith)
            requires
                d == 1 + ki,
                b == block_samples,
        ;
        assert(k * block_samples == ki * b);
        assert((d - 1) * block_samples == ki * b) by (nonlinear_arith)
            requires
                d == 1 + ki,
                b == block_samples,
        ;
    } else {
        let d = blocks_dropped(samples.len(), block_samples);
        assert(d * block_samples == 0) by (nonlinear_arith)
            requires
                d == 0,
        ;
        assert(samples.skip(0) =~= samples);
    }
}

/// The count of dropped blocks in closed form: none while the samples fit,
/// else the excess over the capacity divided by the block size, rounded up.
pub proof fn lemma_blocks_dropped_count(len: nat, block_samples: nat)
    requires
        block_samples >= 1,
    ensures
        blocks_dropped(len, block_samples) == (if len <= capacity_for(block_samples) {
            0
        } else {
            (len - capacity_for(block_samples) + block_samples - 1) / block_samples as int
        }),
    decreases len,
{
    let cap = capacity_for(block_samples) as int;
    let b = block_samples as int;
    if len > cap {
        let rest = (len - block_samples) as nat;
        lemma_blocks_dropped_count(rest, block_samples);
        let over = len - cap;
        if rest <= cap {
            assert((over + b - 1) / b == 1) by (nonlinear_arith)
                requires
                    1 <= over <= b,
                    b >= 1,
            ;
        } else {
            assert((over + b - 1) / b == 1 + (over - b + b - 1) / b) by (nonlinear_arith)
                requires
                    over > b,
                    b >= 1,
            ;
        }
    }
}

/// The mathematical state of a [`DelayBuffer`].
pub struct DelayView<T> {
    /// The queued samples, oldest first.
    pub samples: Seq<T>,
    /// The size of a playout block.
    pub block_samples: nat,
    /// How many fills have found too few samples.
    pub underruns: nat,
}

/// A bounded first-in first-out queue of samples.
pub struct DelayBuffer<T> {
    samples: VecDeque<T>,
    block_samples: usize,
    underruns: u64,
}

impl<T> View for DelayBuffer<T> {
    type V = DelayView<T>;

    closed spec fn view(&self) -> DelayView<T> {
        DelayView {
            samples: self.samples@,
            block_samples: self.block_samples as nat,
            underruns: self.underruns as nat,
        }
    }
}

/// The invariant of the delay buffer: a block size of at least one whose
/// hundredfold fits the machine, and no more samples queued than that.
pub open spec fn within_bounds<T>(v: DelayView<T>) -> bool {
    &&& v.block_samples >= 1
    &&& capacity_for(v.block_samples) <= usize::MAX
    &&& v.samples.len() <= capacity_for(v.block_samples)
    &&& v.underruns <= u64::MAX
}

impl<T: Copy> DelayBuffer<T> {
    /// Whether the buffer's invariant holds.
    pub open spec fn wf(&self) -> bool {
        within_bounds(self@)
    }

    /// An empty delay buffer for playout blocks of `block_samples` samples;
    /// none where the block size is zero or its hundredfold does not fit.
    pub fn new(block_samples: usize) -> (buffer: Option<DelayBuffer<T>>)
        ensures
            buffer is Some <==> 1 <= block_samples && capacity_for(block_samples as nat)
                <= usize::MAX,
            buffer is Some ==> buffer->0.wf() && buffer->0@ == (DelayView::<T> {
                samples: Seq::empty(),
                block_samples: block_samples as nat,
                underruns: 0,
            }),
    {
        if block_samples == 0 || block_samples > usize::MAX / DELAY_BLOCKS {
            return None;
        }
        Some(DelayBuffer { samples: VecDeque::new(), block_samples, underruns: 0 })
    }

    /// The most samples that the buffer holds.
    pub fn capacity(&self) -> (cap: usize)
        requires
            self.wf(),
        ensures
            cap == capacity_for(self@.block_samples),
    {
        self.block_samples * DELAY_BLOCKS
    }

    /// How many samples are queued.
    pub fn len(&self) -> (queued: usize)
        ensures
            queued == self@.samples.len(),
    {
        self.samples.len()
    }

    /// How many fills have found fewer samples than they were asked for.
    pub fn underruns(&self) -> (count: u64)
        ensures
            count == self@.underruns,
    {
        self.underruns
    }

    /// The producer's side: appends `block`, then drops whole blocks from
    /// the front until no more than the capacity is queued.
    pub fn push_block(&mut self, block: &[T])
        requires
            old(self).wf(),
        ensures
            final(self).wf(),
            final(self)@ == (DelayView {
                samples: trimmed(old(self)@.samples + block@, old(self)@.block_samples),
                ..old(self)@
            }),
            final(self)@.samples.len() <= capacity_for(old(self)@.block_samples),
    {
        let ghost wanted = self@.samples + block@;
        let ghost block_samples = self@.block_samples;
        let mut i: usize = 0;
        while i < block.len()
            invariant
                i <= block@.len(),
                self.block_samples == block_samples,
                self.underruns == old(self).underruns,
                self.samples@ == old(self)@.samples + block@.subrange(0, i as int),
            decreases block@.len() - i,
        {
            self.samples.push_back(block[i]);
            i += 1;
            assert(self.samples@ =~= old(self)@.samples + block@.subrange(0, i as int));
        }
        assert(block@.subrange(0, block@.len() as int) =~= block@);
        let cap: usize = self.block_samples * DELAY_BLOCKS;
        while self.samples.len() > cap
            invariant
                block_samples >= 1,
                cap == capacity_for(block_samples),
                self.block_samples == block_samples,
                self.underruns == old(self).underruns,
                trimmed(self.samples@, block_samples) == trimmed(wanted, block_samples),
            decreases self.samples@.len(),
        {
            let ghost over = self.samples@;
            let mut dropped: usize = 0;
            while dropped < self.block_samples
                invariant
                    dropped <= block_samples,
                    block_samples <= over.len(),
                    self.block_samples == block_samples,
                    self.underruns == old(self).underruns,
                    self.samples@ == over.skip(dropped as int),
                decreases block_samples - dropped,
            {
                let _ = self.samples.pop_front();
                dropped += 1;
                assert(self.samples@ =~= over.skip(dropped as int));
            }
        }
        proof {
            lemma_trim_bound(wanted, block_samples);
        }
    }

    /// The producer's side for a run of blocks: pushes each in turn.
    pub fn push_blocks(&mut self, blocks: &Vec<Vec<T>>)
        requires
            old(self).wf(),
        ensures
            final(self).wf(),
            final(self)@ == (DelayView {
                samples: after_blocks(
                    old(self)@.samples,
                    block_views(blocks@),
                    old(self)@.block_samples,
                ),
                ..old(self)@
            }),
            final(self)@.samples.len() <= capacity_for(old(self)@.block_samples),
    {
        let ghost all = block_views(blocks@);
        let mut i: usize = 0;
        assert(all.take(0) =~= Seq::<Seq<T>>::empty());
        while i < blocks.len()
            invariant
                i <= blocks@.len(),
                self.wf(),
                all == block_views(blocks@),
                self@ == (DelayView {
                    samples: after_blocks(
                        old(self)@.samples,
                        all.take(i as int),
                        old(self)@.block_samples,
                    ),
                    ..old(self)@
                }),
            decreases blocks@.len() - i,
        {
            proof {
                assert(all.take(i + 1).drop_last() =~= all.take(i as int));
                assert(all.take(i + 1).last() == blocks@[i as int]@);
            }
            self.push_block(blocks[i].as_slice());
            i += 1;
        }
        assert(all.take(blocks@.len() as int) =~= all);
    }

    /// The consumer's side, one sample: the oldest queued sample, or
    /// `silence` when none is queued.
    pub fn pop_sample(&mut self, silence: T) -> (sample: T)
        ensures
            old(self)@.samples.len() > 0 ==> sample == old(self)@.samples[0] && final(self)@ == (
            DelayView { samples: old(self)@.samples.drop_first(), ..old(self)@ }),
            old(self)@.samples.len() == 0 ==> sample == silence && final(self)@ == old(self)@,
    {
        match self.samples.pop_front() {
            Some(sample) => {
                assert(self.samples@ =~= old(self)@.samples.drop_first());
                sample
            },
            None => silence,
        }
    }

    /// Whether playback may start: at least four fifths of `target_size`
    /// samples are queued.
    pub fn is_primed(&self, target_size: usize) -> (primed: bool)
        ensures
            primed == (self@.samples.len() >= prime_fill(target_size as nat)),
    {
        let threshold: u128 = target_size as u128 * 4 / 5;
        self.samples.len() as u128 >= threshold
    }
}

/// The number of samples that playback waits for before four fifths of it
/// count as primed: channels times block samples times `multiplier`; none
/// where that does not fit the machine.
pub fn prime_target(channels: u16, block_samples: usize, multiplier: usize) -> (target: Option<
    usize,
>)
    ensures
        match target {
            Some(t) => t == channels * block_samples * multiplier,
            None => channels * block_samples * multiplier > usize::MAX,
        },
{
    let per_block = (channels as usize).checked_mul(block_samples);
    match per_block {
        Some(samples) => {
            let target = samples.checked_mul(multiplier);
            target
        },
        None => {
            if multiplier == 0 {
                proof {
                    assert(channels * block_samples * multiplier == 0) by (nonlinear_arith)
                        requires
                            multiplier == 0,
                    ;
                }
                Some(0)
            } else {
                proof {
                    assert(channels * block_samples * multiplier >= channels * block_samples)
                        by (nonlinear_arith)
                        requires
                            multiplier >= 1,
                            channels * block_samples >= 0,
                    ;
                }
                None
            }
        },
    }
}

/// The sample that a fill writes at position `i`: the queued sample at that
/// position, or `silence` past the end of the queue.
pub open spec fn filled_sample<T>(queued: Seq<T>, silence: T, i: int) -> T {
    if i < queued.len() {
        queued[i]
    } else {
        silence
    }
}

/// The state of the buffer after a fill of `asked` samples: that many
/// samples gone from the front, or all of them, and one more underrun
/// counted if fewer were queued than asked for.  The count stops at the
/// largest number it can hold.
pub open spec fn after_fill<T>(v: DelayView<T>, asked: nat) -> DelayView<T> {
    DelayView {
        samples: if asked <= v.samples.len() {
            v.samples.skip(asked as int)
        } else {
            Seq::empty()
        },
        underruns: if asked > v.samples.len() && v.underruns < u64::MAX {
            v.underruns + 1
        } else {
            v.underruns
        },
        ..v
    }
}

/// One step of the traffic through the delay buffer.
pub enum DelayOp<T> {
    /// The producer pushes a block.
    Push(Seq<T>),
    /// The playback callback asks for so many samples.
    Fill(nat),
}

/// The state after one step.
pub open spec fn after_op<T>(v: DelayView<T>, op: DelayOp<T>) -> DelayView<T> {
    match op {
        DelayOp::Push(block) => DelayView {
            samples: trimmed(v.samples + block, v.block_samples),
            ..v
        },
        DelayOp::Fill(asked) => after_fill(v, asked),
    }
}

/// The state after a schedule of pushes and fills, in that order.
pub open spec fn after_schedule<T>(v: DelayView<T>, ops: Seq<DelayOp<T>>) -> DelayView<T>
    decreases ops.len(),
{
    if ops.len() == 0 {
        v
    } else {
        after_op(after_schedule(v, ops.drop_last()), ops.last())
    }
}

/// Whatever the schedule of pushes and fills, the buffer stays within its
/// bounds: at no time does it hold more than a hundred blocks.
pub proof fn lemma_schedule_keeps_bounds<T>(v: DelayView<T>, ops: Seq<DelayOp<T>>)
    requires
        within_bounds(v),
    ensures
        within_bounds(after_schedule(v, ops)),
        after_schedule(v, ops).block_samples == v.block_samples,
    decreases ops.len(),
{
    if ops.len() > 0 {
        let before = after_schedule(v, ops.drop_last());
        lemma_schedule_keeps_bounds(v, ops.drop_last());
        match ops.last() {
            DelayOp::Push(block) => {
                lemma_trim_bound(before.samples + block, before.block_samples);
            },
            DelayOp::Fill(asked) => {},
        }
    }
}

/// The playback callback: writes every sample of `data`, taking the queued
/// samples in order from the front of `buffer` and `silence` once it is
/// empty.
pub fn fill_audio_data<T: Copy>(data: &mut [T], buffer: &mut DelayBuffer<T>, silence: T)
    ensures
        final(data)@.len() == old(data)@.len(),
        forall|i: int|
            0 <= i < old(data)@.len() ==> final(data)@[i] == filled_sample(
                old(buffer)@.samples,
                silence,
                i,
            ),
        final(buffer)@ == after_fill(old(buffer)@, old(data)@.len()),
        old(buffer).wf() ==> final(buffer).wf(),
{
    let ghost queued = buffer@.samples;
    let asked: usize = data.len();
    let mut starved: bool = false;
    let mut i: usize = 0;
    while i < asked
        invariant
            i <= asked,
            asked == data@.len(),
            data@.len() == old(data)@.len(),
            buffer.block_samples == old(buffer).block_samples,
            buffer.underruns == old(buffer).underruns,
            forall|j: int| 0 <= j < i ==> data@[j] == filled_sample(queued, silence, j),
            buffer.samples@ == (if i <= queued.len() {
                queued.skip(i as int)
            } else {
                Seq::empty()
            }),
            starved == (i > queued.len()),
        decreases asked - i,
    {
        match buffer.samples.pop_front() {
            Some(sample) => {
                data[i] = sample;
            },
            None => {
                data[i] = silence;
                starved = true;
            },
        }
        i += 1;
        assert(buffer.samples@ =~= (if i <= queued.len() {
            queued.skip(i as int)
        } else {
            Seq::empty()
        }));
    }
    if starved && buffer.underruns < u64::MAX {
        buffer.underruns = buffer.underruns + 1;
    }
    assert(queued.skip(0) =~= queued);
}

} // verus!
