//! The decoder stage around the codec: cutting a packet payload into coded
//! frames, and gathering decoded samples into playout blocks of one fixed
//! length, with a repeat of earlier samples where a frame could not be
//! decoded.  The codec itself is the caller's; samples are of any copyable
//! type.

use crate::settings::StreamParams;
use vstd::prelude::*;

verus! {

/// The most samples per channel that the codec decodes from one frame.
pub const MAX_FRAME_SAMPLES: usize = 5760;

/// Bytes of the marker in front of each coded frame of a payload.
pub const FRAME_TAG_SIZE: usize = 2;

/// How many whole frames a payload of `payload_len` bytes holds, each a
/// two-byte marker followed by `frame_size` bytes.
pub open spec fn frame_count(payload_len: nat, frame_size: nat) -> nat {
    payload_len / (frame_size + 2)
}

/// The `i`-th coded frame of `payload`, without its marker.
pub open spec fn frame_at(payload: Seq<u8>, frame_size: nat, i: int) -> Seq<u8> {
    payload.subrange(i * (frame_size + 2) + 2, (i + 1) * (frame_size + 2))
}

/// The contents of a list of byte strings.
pub open spec fn byte_strings(list: Seq<Vec<u8>>) -> Seq<Seq<u8>> {
    Seq::new(list.len(), |i: int| list[i]@)
}

/// The coded frames of `payload` in order; bytes after the last whole frame are left out.
pub open spec fn frames_of(payload: Seq<u8>, frame_size: nat) -> Seq<Seq<u8>> {
    Seq::new(frame_count(payload.len(), frame_size), |i: int| frame_at(payload, frame_size, i))
}

/// Cuts `payload` into its coded frames: as many as fit whole, each without
/// its marker.
pub fn split_frames(payload: &[u8], frame_size: u32) -> (frames: Vec<Vec<u8>>)
    ensures
        byte_strings(frames@) == frames_of(payload@, frame_size as nat),
        frames@.len() * (frame_size + 2) <= payload@.len() < (frames@.len() + 1) * (frame_size
            + 2),
        forall|i: int|
            0 <= i < frames@.len() ==> (#[trigger] frames@[i])@ == frame_at(
                payload@,
                frame_size as nat,
                i,
            ),
{
    let mut frames: Vec<Vec<u8>> = Vec::new();
    let len: usize = payload.len();
    if frame_size as u64 + 2 > len as u64 {
        proof {
            assert(len as int / (frame_size + 2) == 0) by (nonlinear_arith)
                requires
                    0 <= len < frame_size + 2,
            ;
            assert(byte_strings(frames@) =~= frames_of(payload@, frame_size as nat));
            assert(0 * (frame_size + 2) == 0 && 1 * (frame_size + 2) == frame_size + 2);
        }
        return frames;
    }
    let stride: usize = frame_size as usize + FRAME_TAG_SIZE;
    let mut offset: usize = 0;
    assert(0 == 0 * stride) by (nonlinear_arith);
    while len - offset >= stride
        invariant
            stride == frame_size + 2,
            len == payload@.len(),
            offset <= len,
            offset == frames@.len() * stride,
            forall|i: int|
                0 <= i < frames@.len() ==> (#[trigger] frames@[i])@ == frame_at(
                    payload@,
                    frame_size as nat,
                    i,
                ),
        decreases len - offset,
    {
        let ghost n = frames@.len() as int;
        let ghost earlier = frames@;
        let frame = vstd::slice::slice_to_vec(&payload[offset + FRAME_TAG_SIZE..offset + stride]);
        proof {
            assert((n + 1) * stride == n * stride + stride) by (nonlinear_arith);
            assert(frame@ == frame_at(payload@, frame_size as nat, n));
        }
        frames.push(frame);
        offset += stride;
        proof {
            assert forall|i: int| 0 <= i < frames@.len() implies (#[trigger] frames@[i])@
                == frame_at(payload@, frame_size as nat, i) by {
                if i < n {
                    assert(frames@[i] == earlier[i]);
                }
            }
        }
    }
    proof {
        let n = frames@.len() as int;
        assert((n + 1) * stride == n * stride + stride) by (nonlinear_arith);
        assert(len as int / stride as int == n) by (nonlinear_arith)
            requires
                n * stride <= len < (n + 1) * stride,
                stride > 0,
                n >= 0,
        ;
        assert(byte_strings(frames@) =~= frames_of(payload@, frame_size as nat));
    }
    frames
}

/// The length of the buffer that one frame is decoded into: the most
/// samples per channel, times the channels.
pub fn decode_buffer_len(channels: u16) -> (len: usize)
    ensures
        len == MAX_FRAME_SAMPLES * channels,
{
    MAX_FRAME_SAMPLES * (channels as usize)
}

/// How many samples of the decode buffer a decode has filled: the samples
/// per channel that the codec reports, times the channels, and no more than
/// the buffer holds.
pub fn decoded_len(samples_per_channel: usize, channels: u16, buffer_len: usize) -> (len: usize)
    ensures
        len == (if samples_per_channel * channels <= buffer_len {
            samples_per_channel * channels
        } else {
            buffer_len as int
        }),
{
    match samples_per_channel.checked_mul(channels as usize) {
        Some(filled) => if filled <= buffer_len {
            filled
        } else {
            buffer_len
        },
        None => buffer_len,
    }
}

/// The stand-in for a frame that could not be decoded: `len` samples that
/// repeat `previous` from its start, over and over, or `silence` throughout
/// where there is nothing to repeat.
pub open spec fn concealment_frame<T>(previous: Seq<T>, len: nat, silence: T) -> Seq<T> {
    Seq::new(
        len,
        |i: int|
            if previous.len() == 0 {
                silence
            } else {
                previous[i % previous.len() as int]
            },
    )
}

/// Builds the stand-in for a frame that could not be decoded.
pub fn repeat_previous_frame<T: Copy>(
    prev_samples: &[T],
    target_fill_rate: usize,
    silence: T,
) -> (frame: Vec<T>)
    ensures
        frame@ == concealment_frame(prev_samples@, target_fill_rate as nat, silence),
{
    let mut frame: Vec<T> = Vec::new();
    let available: usize = prev_samples.len();
    let mut from: usize = 0;
    while frame.len() < target_fill_rate
        invariant
            available == prev_samples@.len(),
            frame@.len() <= target_fill_rate,
            available > 0 ==> from == (frame@.len() as int) % (available as int),
            forall|i: int|
                0 <= i < frame@.len() ==> frame@[i] == (if available == 0 {
                    silence
                } else {
                    prev_samples@[i % available as int]
                }),
        decreases target_fill_rate - frame@.len(),
    {
        if available == 0 {
            frame.push(silence);
        } else {
            let ghost at = frame@.len() as int;
            frame.push(prev_samples[from]);
            from += 1;
            if from == available {
                from = 0;
            }
            proof {
                assert((at + 1) % available as int == if at % available as int + 1
                    == available {
                    0
                } else {
                    at % available as int + 1
                }) by (nonlinear_arith)
                    requires
                        at >= 0,
                        available > 0,
                ;
            }
        }
    }
    assert(frame@ =~= concealment_frame(prev_samples@, target_fill_rate as nat, silence));
    frame
}

/// The mathematical state of a [`BlockAccumulator`].
pub struct AccumulatorView<T> {
    /// The samples gathered and not yet handed on, oldest first.
    pub samples: Seq<T>,
    /// The length of a playout block: block samples times channels.
    pub block_len: nat,
    /// The length of a concealment frame: frame samples times channels.
    pub concealment_len: nat,
    /// The sample that stands for silence.
    pub silence: T,
}

/// Gathers decoded samples and hands them on in blocks of one fixed length.
pub struct BlockAccumulator<T> {
    samples: Vec<T>,
    block_len: usize,
    concealment_len: usize,
    silence: T,
}

impl<T> View for BlockAccumulator<T> {
    type V = AccumulatorView<T>;

    closed spec fn view(&self) -> AccumulatorView<T> {
        AccumulatorView {
            samples: self.samples@,
            block_len: self.block_len as nat,
            concealment_len: self.concealment_len as nat,
            silence: self.silence,
        }
    }
}

/// What one decode adds to the gathered samples: the decoded samples, or a
/// concealment frame where the decode gave none.
pub open spec fn frame_samples<T>(v: AccumulatorView<T>, decoded: Seq<T>) -> Seq<T> {
    if decoded.len() == 0 {
        concealment_frame(v.samples, v.concealment_len, v.silence)
    } else {
        decoded
    }
}

/// The gathered samples once the outcome of one decode is appended.
pub open spec fn with_frame<T>(v: AccumulatorView<T>, decoded: Seq<T>) -> Seq<T> {
    v.samples + frame_samples(v, decoded)
}

/// The whole blocks at the front of `samples`, in order.
pub open spec fn whole_blocks<T>(samples: Seq<T>, block_len: nat) -> Seq<Seq<T>>
    decreases samples.len(),
{
    if block_len == 0 || samples.len() < block_len {
        Seq::empty()
    } else {
        seq![samples.take(block_len as int)] + whole_blocks(
            samples.skip(block_len as int),
            block_len,
        )
    }
}

/// What is left of `samples` behind its whole blocks.
pub open spec fn behind_blocks<T>(samples: Seq<T>, block_len: nat) -> Seq<T>
    decreases samples.len(),
{
    if block_len == 0 || samples.len() < block_len {
        samples
    } else {
        behind_blocks(samples.skip(block_len as int), block_len)
    }
}

/// The samples of `blocks` one after the other.
pub open spec fn joined<T>(blocks: Seq<Seq<T>>) -> Seq<T>
    decreases blocks.len(),
{
    if blocks.len() == 0 {
        Seq::empty()
    } else {
        joined(blocks.drop_last()) + blocks.last()
    }
}

/// The blocks handed on after one decode: every whole block that the
/// gathered samples then hold.
pub open spec fn blocks_after_frame<T>(v: AccumulatorView<T>, decoded: Seq<T>) -> Seq<Seq<T>> {
    whole_blocks(with_frame(v, decoded), v.block_len)
}

/// The state after one decode: what is left behind the blocks handed on.
pub open spec fn after_frame<T>(v: AccumulatorView<T>, decoded: Seq<T>) -> AccumulatorView<T> {
    AccumulatorView { samples: behind_blocks(with_frame(v, decoded), v.block_len), ..v }
}

/// The state after the decodes of a whole packet, frame by frame.
pub open spec fn after_frames<T>(v: AccumulatorView<T>, decoded: Seq<Seq<T>>) -> AccumulatorView<T>
    decreases decoded.len(),
{
    if decoded.len() == 0 {
        v
    } else {
        after_frame(after_frames(v, decoded.drop_last()), decoded.last())
    }
}

/// The blocks handed on over the decodes of a whole packet, in order.
pub open spec fn blocks_of_frames<T>(v: AccumulatorView<T>, decoded: Seq<Seq<T>>) -> Seq<Seq<T>>
    decreases decoded.len(),
{
    if decoded.len() == 0 {
        Seq::empty()
    } else {
        blocks_of_frames(v, decoded.drop_last()) + blocks_after_frame(
            after_frames(v, decoded.drop_last()),
            decoded.last(),
        )
    }
}

/// Everything that has come into the accumulator: the samples it held at
/// first, then what each decode added, in order.
pub open spec fn stream_of_frames<T>(v: AccumulatorView<T>, decoded: Seq<Seq<T>>) -> Seq<T>
    decreases decoded.len(),
{
    if decoded.len() == 0 {
        v.samples
    } else {
        stream_of_frames(v, decoded.drop_last()) + frame_samples(
            after_frames(v, decoded.drop_last()),
            decoded.last(),
        )
    }
}

/// The contents of a list of sample blocks.
pub open spec fn sample_blocks<T>(list: Seq<Vec<T>>) -> Seq<Seq<T>> {
    Seq::new(list.len(), |i: int| list[i]@)
}

/// Every whole block cut from gathered samples holds exactly `block_len`
/// samples, and fewer than that are left behind.
pub proof fn lemma_whole_blocks_have_block_len<T>(samples: Seq<T>, block_len: nat)
    requires
        block_len >= 1,
    ensures
        forall|i: int|
            0 <= i < whole_blocks(samples, block_len).len() ==> (#[trigger] whole_blocks(
                samples,
                block_len,
            )[i]).len() == block_len,
        behind_blocks(samples, block_len).len() < block_len,
    decreases samples.len(),
{
    if samples.len() >= block_len {
        let rest = whole_blocks(samples.skip(block_len as int), block_len);
        lemma_whole_blocks_have_block_len(samples.skip(block_len as int), block_len);
        assert forall|i: int| 0 <= i < whole_blocks(samples, block_len).len() implies (
        #[trigger] whole_blocks(samples, block_len)[i]).len() == block_len by {
            if i > 0 {
                assert(whole_blocks(samples, block_len)[i] == rest[i - 1]);
            }
        }
    }
}

/// The whole blocks in closed form: as many as the block length goes into
/// the number of samples, and the remainder left behind.
pub proof fn lemma_whole_blocks_count<T>(samples: Seq<T>, block_len: nat)
    requires
        block_len >= 1,
    ensures
        whole_blocks(samples, block_len).len() == samples.len() / block_len,
        behind_blocks(samples, block_len).len() == samples.len() % block_len,
        behind_blocks(samples, block_len) == samples.skip(
            samples.len() - samples.len() % block_len,
        ),
    decreases samples.len(),
{
    let n = samples.len() as int;
    let b = block_len as int;
    if n >= b {
        let rest = samples.skip(b);
        lemma_whole_blocks_count(rest, block_len);
        assert(n / b == 1 + (n - b) / b && n % b == (n - b) % b) by (nonlinear_arith)
            requires
                n >= b,
                b >= 1,
        ;
        assert(rest.skip(rest.len() - rest.len() % block_len) =~= samples.skip(n - n % b));
    } else {
        assert(n / b == 0 && n % b == n) by (nonlinear_arith)
            requires
                0 <= n < b,
        ;
        assert(samples.skip(0) =~= samples);
    }
}

/// Nothing is lost, repeated or moved: the whole blocks of `samples`, one
/// after the other, and then what is left behind them, are `samples`.
pub proof fn lemma_whole_blocks_rejoin<T>(samples: Seq<T>, block_len: nat)
    ensures
        joined(whole_blocks(samples, block_len)) + behind_blocks(samples, block_len) == samples,
    decreases samples.len(),
{
    if block_len == 0 || samples.len() < block_len {
        assert(joined(whole_blocks(samples, block_len)) + behind_blocks(samples, block_len)
            =~= samples);
    } else {
        let first = samples.take(block_len as int);
        let rest = samples.skip(block_len as int);
        lemma_whole_blocks_rejoin(rest, block_len);
        lemma_joined_behind_first(first, whole_blocks(rest, block_len));
        assert(first + (joined(whole_blocks(rest, block_len)) + behind_blocks(rest, block_len))
            =~= samples);
        assert(joined(whole_blocks(samples, block_len)) + behind_blocks(samples, block_len)
            =~= first + (joined(whole_blocks(rest, block_len)) + behind_blocks(rest, block_len)));
    }
}

/// Joining a block in front of others puts its samples in front of theirs.
pub proof fn lemma_joined_behind_first<T>(first: Seq<T>, others: Seq<Seq<T>>)
    ensures
        joined(seq![first] + others) == first + joined(others),
    decreases others.len(),
{
    let all = seq![first] + others;
    if others.len() == 0 {
        assert(all.drop_last() =~= Seq::<Seq<T>>::empty());
        assert(all.last() == first);
        assert(joined(all.drop_last()) =~= Seq::<T>::empty());
        assert(joined(others) =~= Seq::<T>::empty());
        assert(joined(all) =~= first + joined(others));
    } else {
        lemma_joined_behind_first(first, others.drop_last());
        assert(all.drop_last() =~= seq![first] + others.drop_last());
        assert(all.last() == others.last());
        assert(joined(all) =~= first + joined(others));
    }
}

/// Cutting blocks as the samples come in gives the same blocks as cutting
/// them all at once: the whole blocks of `earlier + later` are those of
/// `earlier`, then those of what `earlier` left behind followed by `later`.
pub proof fn lemma_whole_blocks_append<T>(earlier: Seq<T>, later: Seq<T>, block_len: nat)
    requires
        block_len >= 1,
    ensures
        whole_blocks(earlier + later, block_len) == whole_blocks(earlier, block_len)
            + whole_blocks(behind_blocks(earlier, block_len) + later, block_len),
        behind_blocks(earlier + later, block_len) == behind_blocks(
            behind_blocks(earlier, block_len) + later,
            block_len,
        ),
    decreases earlier.len(),
{
    if earlier.len() >= block_len {
        let rest = earlier.skip(block_len as int);
        lemma_whole_blocks_append(rest, later, block_len);
        assert((earlier + later).take(block_len as int) =~= earlier.take(block_len as int));
        assert((earlier + later).skip(block_len as int) =~= rest + later);
        assert(whole_blocks(earlier + later, block_len) =~= whole_blocks(earlier, block_len)
            + whole_blocks(behind_blocks(earlier, block_len) + later, block_len));
    } else {
        assert(whole_blocks(earlier + later, block_len) =~= whole_blocks(earlier, block_len)
            + whole_blocks(behind_blocks(earlier, block_len) + later, block_len));
    }
}

/// Block size.  Every block handed on over the decodes of a packet holds
/// exactly `block_len` samples.
pub proof fn lemma_blocks_have_block_len<T>(v: AccumulatorView<T>, decoded: Seq<Seq<T>>)
    ensures
        forall|i: int|
            0 <= i < blocks_of_frames(v, decoded).len() ==> (#[trigger] blocks_of_frames(
                v,
                decoded,
            )[i]).len() == v.block_len,
        after_frames(v, decoded).block_len == v.block_len,
    decreases decoded.len(),
{
    if decoded.len() > 0 {
        lemma_blocks_have_block_len(v, decoded.drop_last());
        let earlier = blocks_of_frames(v, decoded.drop_last());
        let state = after_frames(v, decoded.drop_last());
        let added = blocks_after_frame(state, decoded.last());
        if v.block_len >= 1 {
            lemma_whole_blocks_have_block_len(with_frame(state, decoded.last()), v.block_len);
        }
        assert forall|i: int| 0 <= i < blocks_of_frames(v, decoded).len() implies (
        #[trigger] blocks_of_frames(v, decoded)[i]).len() == v.block_len by {
            if i < earlier.len() {
                assert(blocks_of_frames(v, decoded)[i] == earlier[i]);
            } else {
                assert(blocks_of_frames(v, decoded)[i] == added[i - earlier.len()]);
            }
        }
    }
}

/// The accumulator cuts the stream.  Starting with less than a block
/// gathered, the blocks handed on over any run of decodes are the whole
/// blocks of everything that came in, and what stays gathered is what is
/// left behind them.
pub proof fn lemma_frames_cut_the_stream<T>(v: AccumulatorView<T>, decoded: Seq<Seq<T>>)
    requires
        v.block_len >= 1,
        v.samples.len() < v.block_len,
    ensures
        blocks_of_frames(v, decoded) == whole_blocks(stream_of_frames(v, decoded), v.block_len),
        after_frames(v, decoded) == (AccumulatorView {
            samples: behind_blocks(stream_of_frames(v, decoded), v.block_len),
            ..v
        }),
    decreases decoded.len(),
{
    if decoded.len() == 0 {
        assert(blocks_of_frames(v, decoded) =~= whole_blocks(v.samples, v.block_len));
    } else {
        let front = decoded.drop_last();
        let state = after_frames(v, front);
        lemma_frames_cut_the_stream(v, front);
        lemma_whole_blocks_append(
            stream_of_frames(v, front),
            frame_samples(state, decoded.last()),
            v.block_len,
        );
    }
}

/// Whole blocks, in order, nothing lost.  Starting with less than a block
/// gathered, and with `S` samples come in over any run of decodes, exactly
/// `S / block_len` blocks have been handed on, rounded down; one after the
/// other they are the first samples that came in, in the order in which they
/// came; and the rest, fewer than `block_len`, stays gathered.
pub proof fn lemma_blocks_are_the_stream<T>(v: AccumulatorView<T>, decoded: Seq<Seq<T>>)
    requires
        v.block_len >= 1,
        v.samples.len() < v.block_len,
    ensures
        ({
            let stream = stream_of_frames(v, decoded);
            let sent = stream.len() - stream.len() % v.block_len;
            &&& blocks_of_frames(v, decoded).len() == stream.len() / v.block_len
            &&& joined(blocks_of_frames(v, decoded)) == stream.take(sent)
            &&& after_frames(v, decoded).samples == stream.skip(sent)
            &&& after_frames(v, decoded).samples.len() < v.block_len
        }),
{
    let stream = stream_of_frames(v, decoded);
    lemma_frames_cut_the_stream(v, decoded);
    lemma_whole_blocks_count(stream, v.block_len);
    lemma_whole_blocks_rejoin(stream, v.block_len);
    let sent = stream.len() - stream.len() % v.block_len;
    assert(joined(blocks_of_frames(v, decoded)) =~= stream.take(sent));
}

/// A clean stream.  Where every one of `decoded.len()` decodes gives
/// `frame_len` samples, at least one, an accumulator that starts empty has
/// handed on `decoded.len() * frame_len / block_len` blocks, rounded down.
pub proof fn lemma_equal_frames_block_count<T>(
    v: AccumulatorView<T>,
    decoded: Seq<Seq<T>>,
    frame_len: nat,
)
    requires
        v.block_len >= 1,
        v.samples.len() == 0,
        frame_len >= 1,
        forall|i: int| 0 <= i < decoded.len() ==> (#[trigger] decoded[i]).len() == frame_len,
    ensures
        stream_of_frames(v, decoded).len() == decoded.len() * frame_len,
        blocks_of_frames(v, decoded).len() == (decoded.len() * frame_len) / v.block_len,
    decreases decoded.len(),
{
    if decoded.len() > 0 {
        let front = decoded.drop_last();
        assert forall|i: int| 0 <= i < front.len() implies (#[trigger] front[i]).len()
            == frame_len by {
            assert(front[i] == decoded[i]);
        }
        lemma_equal_frames_block_count(v, front, frame_len);
        assert(decoded.len() * frame_len == front.len() * frame_len + frame_len)
            by (nonlinear_arith)
            requires
                decoded.len() == front.len() + 1,
        ;
    } else {
        assert(decoded.len() * frame_len == 0) by (nonlinear_arith)
            requires
                decoded.len() == 0,
        ;
    }
    lemma_blocks_are_the_stream(v, decoded);
}

impl<T: Copy> BlockAccumulator<T> {
    /// An empty accumulator that hands on blocks of `block_len` samples and
    /// conceals a failed decode with `concealment_len` samples.
    pub fn new(block_len: usize, concealment_len: usize, silence: T) -> (accumulator:
        BlockAccumulator<T>)
        ensures
            accumulator@ == (AccumulatorView {
                samples: Seq::empty(),
                block_len: block_len as nat,
                concealment_len: concealment_len as nat,
                silence,
            }),
    {
        BlockAccumulator { samples: Vec::new(), block_len, concealment_len, silence }
    }

    /// An empty accumulator for a stream: blocks of block samples times
    /// channels, concealment frames of frame samples times channels.
    pub fn for_stream(params: &StreamParams, silence: T) -> (accumulator: BlockAccumulator<T>)
        requires
            params.wf(),
        ensures
            accumulator@ == (AccumulatorView {
                samples: Seq::empty(),
                block_len: (params.spec_block_samples() * params.spec_channels()) as nat,
                concealment_len: (params.spec_frame_samples() * params.spec_channels()) as nat,
                silence,
            }),
    {
        BlockAccumulator::new(params.block_len(), params.frame_len(), silence)
    }

    /// How many samples are gathered and not yet handed on.
    pub fn len(&self) -> (gathered: usize)
        ensures
            gathered == self@.samples.len(),
    {
        self.samples.len()
    }

    /// The length of the blocks handed on.
    pub fn block_len(&self) -> (len: usize)
        ensures
            len == self@.block_len,
    {
        self.block_len
    }

    /// Appends `more` to the gathered samples.
    fn extend(&mut self, more: &[T])
        ensures
            final(self)@ == (AccumulatorView {
                samples: old(self)@.samples + more@,
                ..old(self)@
            }),
    {
        let mut i: usize = 0;
        while i < more.len()
            invariant
                i <= more@.len(),
                self.block_len == old(self).block_len,
                self.concealment_len == old(self).concealment_len,
                self.silence == old(self).silence,
                self.samples@ == old(self)@.samples + more@.subrange(0, i as int),
            decreases more@.len() - i,
        {
            self.samples.push(more[i]);
            i += 1;
            assert(self.samples@ =~= old(self)@.samples + more@.subrange(0, i as int));
        }
        assert(more@.subrange(0, more@.len() as int) =~= more@);
    }

    /// Takes every whole block out of the gathered samples.
    fn take_blocks(&mut self) -> (blocks: Vec<Vec<T>>)
        requires
            old(self)@.block_len >= 1,
        ensures
            sample_blocks(blocks@) == whole_blocks(old(self)@.samples, old(self)@.block_len),
            final(self)@ == (AccumulatorView {
                samples: behind_blocks(old(self)@.samples, old(self)@.block_len),
                ..old(self)@
            }),
            final(self)@.samples.len() < old(self)@.block_len,
    {
        let ghost all = self@.samples;
        let ghost block_len = self@.block_len;
        let mut blocks: Vec<Vec<T>> = Vec::new();
        assert(sample_blocks(blocks@) + whole_blocks(self@.samples, block_len) =~= whole_blocks(
            all,
            block_len,
        ));
        while self.samples.len() >= self.block_len
            invariant
                block_len >= 1,
                self@.block_len == block_len,
                self@.concealment_len == old(self)@.concealment_len,
                self@.silence == old(self)@.silence,
                sample_blocks(blocks@) + whole_blocks(self@.samples, block_len) == whole_blocks(
                    all,
                    block_len,
                ),
                behind_blocks(self@.samples, block_len) == behind_blocks(all, block_len),
            decreases self@.samples.len(),
        {
            let ghost earlier = blocks@;
            let ghost gathered = self@.samples;
            let mut block = self.samples.split_off(self.block_len);
            core::mem::swap(&mut self.samples, &mut block);
            blocks.push(block);
            proof {
                assert(block@ =~= gathered.take(block_len as int));
                assert(self@.samples =~= gathered.skip(block_len as int));
                assert(sample_blocks(blocks@) =~= sample_blocks(earlier).push(block@));
                assert(sample_blocks(blocks@) + whole_blocks(self@.samples, block_len)
                    =~= sample_blocks(earlier) + whole_blocks(gathered, block_len));
            }
        }
        proof {
            assert(whole_blocks(self@.samples, block_len) =~= Seq::<Seq<T>>::empty());
            assert(sample_blocks(blocks@) =~= whole_blocks(all, block_len));
        }
        blocks
    }

    /// Takes in the outcome of one decode, an empty `decoded` standing for a
    /// frame that could not be decoded, and hands on every whole block then
    /// gathered, so that less than one block stays behind.
    pub fn push_frame(&mut self, decoded: &[T]) -> (blocks: Vec<Vec<T>>)
        requires
            old(self)@.block_len >= 1,
        ensures
            sample_blocks(blocks@) == blocks_after_frame(old(self)@, decoded@),
            final(self)@ == after_frame(old(self)@, decoded@),
            final(self)@.samples.len() < old(self)@.block_len,
            forall|i: int| 0 <= i < blocks@.len() ==> (#[trigger] blocks@[i])@.len() == old(
                self,
            )@.block_len,
    {
        if decoded.len() == 0 {
            let interpolated = repeat_previous_frame(
                self.samples.as_slice(),
                self.concealment_len,
                self.silence,
            );
            self.extend(interpolated.as_slice());
        } else {
            self.extend(decoded);
        }
        let blocks = self.take_blocks();
        proof {
            lemma_whole_blocks_have_block_len(
                with_frame(old(self)@, decoded@),
                old(self)@.block_len,
            );
            assert forall|i: int| 0 <= i < blocks@.len() implies (#[trigger] blocks@[i])@.len()
                == old(self)@.block_len by {
                assert(sample_blocks(blocks@)[i] == blocks@[i]@);
            }
        }
        blocks
    }

    /// Takes in the signal that a frame is missing: conceals it as a frame
    /// that could not be decoded.
    pub fn push_concealment(&mut self) -> (blocks: Vec<Vec<T>>)
        requires
            old(self)@.block_len >= 1,
        ensures
            sample_blocks(blocks@) == blocks_after_frame(old(self)@, Seq::empty()),
            final(self)@ == after_frame(old(self)@, Seq::empty()),
            final(self)@.samples.len() < old(self)@.block_len,
            forall|i: int| 0 <= i < blocks@.len() ==> (#[trigger] blocks@[i])@.len() == old(
                self,
            )@.block_len,
    {
        let none: Vec<T> = Vec::new();
        self.push_frame(none.as_slice())
    }

    /// Takes in the decodes of one packet, frame by frame, and returns the
    /// blocks handed on, in order.
    pub fn push_frames(&mut self, decoded: &Vec<Vec<T>>) -> (blocks: Vec<Vec<T>>)
        requires
            old(self)@.block_len >= 1,
        ensures
            final(self)@ == after_frames(old(self)@, sample_blocks(decoded@)),
            sample_blocks(blocks@) == blocks_of_frames(old(self)@, sample_blocks(decoded@)),
            forall|i: int| 0 <= i < blocks@.len() ==> (#[trigger] blocks@[i])@.len() == old(
                self,
            )@.block_len,
            decoded@.len() > 0 ==> final(self)@.samples.len() < old(self)@.block_len,
            decoded@.len() == 0 ==> final(self)@ == old(self)@,
    {
        let ghost all = sample_blocks(decoded@);
        let mut blocks: Vec<Vec<T>> = Vec::new();
        let mut i: usize = 0;
        assert(all.subrange(0, 0) =~= Seq::<Seq<T>>::empty());
        assert(sample_blocks(blocks@) =~= Seq::<Seq<T>>::empty());
        while i < decoded.len()
            invariant
                i <= decoded@.len(),
                all == sample_blocks(decoded@),
                old(self)@.block_len >= 1,
                self@.block_len == old(self)@.block_len,
                self@ == after_frames(old(self)@, all.subrange(0, i as int)),
                sample_blocks(blocks@) == blocks_of_frames(old(self)@, all.subrange(0, i as int)),
                i > 0 ==> self@.samples.len() < old(self)@.block_len,
            decreases decoded@.len() - i,
        {
            let ghost upto = all.subrange(0, i + 1);
            let ghost earlier = blocks@;
            assert(upto.drop_last() =~= all.subrange(0, i as int));
            assert(upto.last() == decoded@[i as int]@);
            let mut more = self.push_frame(decoded[i].as_slice());
            let ghost added = more@;
            blocks.append(&mut more);
            assert(sample_blocks(blocks@) =~= sample_blocks(earlier) + sample_blocks(added));
            i += 1;
        }
        proof {
            assert(all.subrange(0, decoded@.len() as int) =~= all);
            lemma_blocks_have_block_len(old(self)@, all);
            assert forall|i: int| 0 <= i < blocks@.len() implies (#[trigger] blocks@[i])@.len()
                == old(self)@.block_len by {
                assert(sample_blocks(blocks@)[i] == blocks@[i]@);
            }
        }
        blocks
    }

    /// The capture side: appends `data` and returns every whole block now
    /// gathered, leaving less than one block behind.
    pub fn push_samples(&mut self, data: &[T]) -> (blocks: Vec<Vec<T>>)
        requires
            old(self)@.block_len >= 1,
        ensures
            sample_blocks(blocks@) == whole_blocks(
                old(self)@.samples + data@,
                old(self)@.block_len,
            ),
            final(self)@ == (AccumulatorView {
                samples: behind_blocks(old(self)@.samples + data@, old(self)@.block_len),
                ..old(self)@
            }),
            final(self)@.samples.len() < old(self)@.block_len,
    {
        self.extend(data);
        self.take_blocks()
    }
}

} // verus!
