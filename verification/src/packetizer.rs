//! The packetizer: coded bytes in, datagrams of a fixed number of equal
//! frames out, numbered in sequence.

use crate::decoder::{frame_at, frame_count, frames_of};
use crate::wire::{be_bytes, create_packet, datagram_bytes, DatagramView};
use vstd::prelude::*;

verus! {

/// Frames per datagram when nothing else is asked for.
pub const FRAMES_PER_DATAGRAM: usize = 20;

/// The marker in front of each frame of a payload: the frame length as two
/// big-endian bytes.
pub open spec fn frame_tag(frame_length: nat) -> Seq<u8> {
    be_bytes(frame_length, 2)
}

/// The payload made of the whole frames of `raw`: each frame of
/// `frame_length` bytes behind its marker.
pub open spec fn tagged_frames(raw: Seq<u8>, frame_length: nat) -> Seq<u8>
    decreases raw.len(),
{
    if frame_length == 0 || raw.len() < frame_length {
        Seq::empty()
    } else {
        frame_tag(frame_length) + raw.take(frame_length as int) + tagged_frames(
            raw.skip(frame_length as int),
            frame_length,
        )
    }
}

/// The sequence number after `sequence_number`; the numbers wrap around.
pub open spec fn next_sequence(sequence_number: u32) -> u32 {
    if sequence_number == u32::MAX {
        0
    } else {
        (sequence_number + 1) as u32
    }
}

/// The mathematical state of a [`Packetizer`].
pub struct PacketizerView {
    /// Bytes per coded frame.
    pub frame_length: nat,
    /// Frames per datagram.
    pub frames_per_datagram: nat,
    /// The coded bytes taken in and not yet sent, oldest first.
    pub pending: Seq<u8>,
    /// The sequence number of the next datagram.
    pub sequence_number: u32,
    /// The latest time that the packetizer was given.
    pub last_timestamp_ms: u128,
}

/// The coded bytes that one datagram carries.
pub open spec fn batch_len(v: PacketizerView) -> nat {
    v.frames_per_datagram * v.frame_length
}

/// The invariant of the packetizer: frames of at least one byte whose length
/// fits the two-byte marker, at least one frame per datagram, a payload that
/// fits the 32-bit length field, and less than one batch pending.
pub open spec fn well_formed(v: PacketizerView) -> bool {
    &&& 1 <= v.frame_length <= 0xFFFF
    &&& 1 <= v.frames_per_datagram
    &&& v.frames_per_datagram * (v.frame_length + 2) <= u32::MAX
    &&& v.pending.len() < batch_len(v)
}

/// The datagram that carries the batch `raw` of frames of `frame_length`
/// bytes under `sequence_number`.
pub open spec fn datagram_of(
    frame_length: nat,
    sequence_number: u32,
    raw: Seq<u8>,
    timestamp_ms: u128,
) -> Seq<u8> {
    datagram_bytes(
        DatagramView {
            sequence_number,
            timestamp_ms,
            frame_size: frame_length as u32,
            payload: tagged_frames(raw, frame_length),
        },
    )
}

/// The datagrams cut from `bytes`, one per whole batch of `batch` bytes,
/// numbered from `sequence_number` on.
pub open spec fn datagrams_from(
    frame_length: nat,
    batch: nat,
    sequence_number: u32,
    bytes: Seq<u8>,
    timestamp_ms: u128,
) -> Seq<Seq<u8>>
    decreases bytes.len(),
{
    if batch == 0 || bytes.len() < batch {
        Seq::empty()
    } else {
        seq![datagram_of(frame_length, sequence_number, bytes.take(batch as int), timestamp_ms)]
            + datagrams_from(
            frame_length,
            batch,
            next_sequence(sequence_number),
            bytes.skip(batch as int),
            timestamp_ms,
        )
    }
}

/// The sequence number reached once every whole batch of `len` bytes has left.
pub open spec fn sequence_after(batch: nat, sequence_number: u32, len: nat) -> u32
    decreases len,
{
    if batch == 0 || len < batch {
        sequence_number
    } else {
        sequence_after(batch, next_sequence(sequence_number), (len - batch) as nat)
    }
}

/// What is left of `bytes` behind its whole batches.
pub open spec fn behind_batches(batch: nat, bytes: Seq<u8>) -> Seq<u8>
    decreases bytes.len(),
{
    if batch == 0 || bytes.len() < batch {
        bytes
    } else {
        behind_batches(batch, bytes.skip(batch as int))
    }
}

/// The timestamp put on the datagrams that leave at the time `now_ms`: that
/// time, or the latest time given before where the clock has gone back, so
/// that the timestamps of one packetizer never decrease.
pub open spec fn stamp_at(v: PacketizerView, now_ms: u128) -> u128 {
    if now_ms < v.last_timestamp_ms {
        v.last_timestamp_ms
    } else {
        now_ms
    }
}

/// The state once the coded bytes `block` were taken in at the time `now_ms`
/// and every whole batch has left: the rest pending, the sequence number
/// advanced by one per batch.
pub open spec fn after_bytes(v: PacketizerView, block: Seq<u8>, now_ms: u128) -> PacketizerView {
    PacketizerView {
        pending: behind_batches(batch_len(v), v.pending + block),
        sequence_number: sequence_after(
            batch_len(v),
            v.sequence_number,
            (v.pending + block).len(),
        ),
        last_timestamp_ms: stamp_at(v, now_ms),
        ..v
    }
}

/// The datagrams that leave when the coded bytes `block` are taken in at the
/// time `now_ms`.
pub open spec fn datagrams_after_bytes(v: PacketizerView, block: Seq<u8>, now_ms: u128) -> Seq<
    Seq<u8>,
> {
    datagrams_from(
        v.frame_length,
        batch_len(v),
        v.sequence_number,
        v.pending + block,
        stamp_at(v, now_ms),
    )
}

/// The contents of a list of datagrams.
pub open spec fn datagram_list(list: Seq<Vec<u8>>) -> Seq<Seq<u8>> {
    Seq::new(list.len(), |i: int| list[i]@)
}

/// A payload of whole frames holds two bytes more per frame than the coded
/// bytes it was made from.
pub proof fn lemma_tagged_frames_len(raw: Seq<u8>, frame_length: nat, frames: nat)
    requires
        frame_length >= 1,
        raw.len() == frames * frame_length,
    ensures
        tagged_frames(raw, frame_length).len() == frames * (frame_length + 2),
    decreases frames,
{
    crate::wire::lemma_be_bytes_len(frame_length, 2);
    if frames == 0 {
        assert(raw.len() == 0) by (nonlinear_arith)
            requires
                raw.len() == frames * frame_length,
                frames == 0,
        ;
        assert(frames * (frame_length + 2) == 0) by (nonlinear_arith)
            requires
                frames == 0,
        ;
    } else {
        assert(frames * frame_length == (frames - 1) * frame_length + frame_length)
            by (nonlinear_arith);
        assert(frames * (frame_length + 2) == (frames - 1) * (frame_length + 2) + frame_length + 2)
            by (nonlinear_arith);
        assert((frames - 1) * frame_length >= 0) by (nonlinear_arith)
            requires
                frames >= 1,
                frame_length >= 1,
        ;
        lemma_tagged_frames_len(raw.skip(frame_length as int), frame_length, (frames - 1) as nat);
    }
}

/// The batches in closed form: one datagram per whole batch, the remainder
/// left pending.
pub proof fn lemma_batches_count(
    frame_length: nat,
    batch: nat,
    sequence_number: u32,
    bytes: Seq<u8>,
    timestamp_ms: u128,
)
    requires
        batch >= 1,
    ensures
        datagrams_from(frame_length, batch, sequence_number, bytes, timestamp_ms).len()
            == bytes.len() / batch,
        behind_batches(batch, bytes).len() == bytes.len() % batch,
        behind_batches(batch, bytes) == bytes.skip(bytes.len() - bytes.len() % batch),
    decreases bytes.len(),
{
    let n = bytes.len() as int;
    let b = batch as int;
    if n >= b {
        let rest = bytes.skip(b);
        lemma_batches_count(
            frame_length,
            batch,
            next_sequence(sequence_number),
            rest,
            timestamp_ms,
        );
        assert(n / b == 1 + (n - b) / b && n % b == (n - b) % b) by (nonlinear_arith)
            requires
                n >= b,
                b >= 1,
        ;
        assert(rest.skip(rest.len() - rest.len() % batch) =~= bytes.skip(n - n % b));
    } else {
        assert(n / b == 0 && n % b == n) by (nonlinear_arith)
            requires
                0 <= n < b,
        ;
        assert(bytes.skip(0) =~= bytes);
    }
}

/// The `i`-th frame of the coded bytes `raw`.
pub open spec fn raw_frame(raw: Seq<u8>, frame_length: nat, i: int) -> Seq<u8> {
    raw.subrange(i * frame_length, (i + 1) * frame_length)
}

/// What is packed is split again.  The frames that the decoder stage cuts
/// from a payload of whole frames are the frames that the payload was made
/// from, in order.
pub proof fn lemma_split_inverts_tagging(raw: Seq<u8>, frame_length: nat, frames: nat)
    requires
        frame_length >= 1,
        raw.len() == frames * frame_length,
    ensures
        frames_of(tagged_frames(raw, frame_length), frame_length) == Seq::new(
            frames,
            |i: int| raw_frame(raw, frame_length, i),
        ),
    decreases frames,
{
    let payload = tagged_frames(raw, frame_length);
    let stride = frame_length + 2;
    lemma_tagged_frames_len(raw, frame_length, frames);
    crate::wire::lemma_be_bytes_len(frame_length, 2);
    assert(frame_count(payload.len(), frame_length) == frames) by (nonlinear_arith)
        requires
            payload.len() == frames * (frame_length + 2),
            frame_count(payload.len(), frame_length) == payload.len() / (frame_length + 2),
    ;
    if frames > 0 {
        let rest_raw = raw.skip(frame_length as int);
        let rest = tagged_frames(rest_raw, frame_length);
        assert(frames * frame_length == (frames - 1) * frame_length + frame_length)
            by (nonlinear_arith);
        assert((frames - 1) * frame_length >= 0) by (nonlinear_arith)
            requires
                frames >= 1,
                frame_length >= 1,
        ;
        lemma_split_inverts_tagging(rest_raw, frame_length, (frames - 1) as nat);
        lemma_tagged_frames_len(rest_raw, frame_length, (frames - 1) as nat);
        assert(payload == frame_tag(frame_length) + raw.take(frame_length as int) + rest);
        assert forall|i: int| 0 <= i < frames implies frame_at(payload, frame_length, i)
            == raw_frame(raw, frame_length, i) by {
            assert(i * stride + stride == (i + 1) * stride) by (nonlinear_arith);
            assert(i * frame_length + frame_length == (i + 1) * frame_length)
                by (nonlinear_arith);
            assert(0 <= i * stride && 0 <= i * frame_length) by (nonlinear_arith)
                requires
                    i >= 0,
                    stride >= 0,
                    frame_length >= 0,
            ;
            assert((i + 1) * stride <= frames * stride && (i + 1) * frame_length <= frames
                * frame_length) by (nonlinear_arith)
                requires
                    i + 1 <= frames,
                    stride >= 0,
                    frame_length >= 0,
            ;
            if i == 0 {
                assert(i * stride == 0 && i * frame_length == 0) by (nonlinear_arith)
                    requires
                        i == 0,
                ;
                assert(frame_tag(frame_length).len() == 2);
                assert(frame_at(payload, frame_length, i) =~= raw.take(frame_length as int));
                assert(raw_frame(raw, frame_length, i) =~= raw.take(frame_length as int));
                assert(frame_at(payload, frame_length, i) == raw_frame(raw, frame_length, i));
            } else {
                assert((i - 1) * stride + stride == i * stride) by (nonlinear_arith);
                assert((i - 1) * frame_length + frame_length == i * frame_length)
                    by (nonlinear_arith);
                assert(frames_of(rest, frame_length)[i - 1] == raw_frame(
                    rest_raw,
                    frame_length,
                    i - 1,
                ));
                assert(frame_at(payload, frame_length, i) =~= frame_at(
                    rest,
                    frame_length,
                    i - 1,
                ));
                assert(raw_frame(rest_raw, frame_length, i - 1) =~= raw_frame(
                    raw,
                    frame_length,
                    i,
                ));
                assert(frames_of(rest, frame_length).len() == frames - 1);
                assert(frames_of(rest, frame_length)[i - 1] == frame_at(
                    rest,
                    frame_length,
                    i - 1,
                ));
                assert(frame_at(payload, frame_length, i) == raw_frame(raw, frame_length, i));
            }
        }
    }
    assert(frames_of(payload, frame_length) =~= Seq::new(
        frames,
        |i: int| raw_frame(raw, frame_length, i),
    ));
}

/// Batches coded bytes into datagrams.
pub struct Packetizer {
    frame_length: u32,
    frames_per_datagram: usize,
    pending: Vec<u8>,
    sequence_number: u32,
    last_timestamp_ms: u128,
}

impl View for Packetizer {
    type V = PacketizerView;

    closed spec fn view(&self) -> PacketizerView {
        PacketizerView {
            frame_length: self.frame_length as nat,
            frames_per_datagram: self.frames_per_datagram as nat,
            pending: self.pending@,
            sequence_number: self.sequence_number,
            last_timestamp_ms: self.last_timestamp_ms,
        }
    }
}

/// Puts the whole frames of `raw` behind their markers.
fn tag_frames(raw: &[u8], frame_length: u32) -> (payload: Vec<u8>)
    requires
        1 <= frame_length <= 0xFFFF,
    ensures
        payload@ == tagged_frames(raw@, frame_length as nat),
{
    let size: usize = frame_length as usize;
    let high: u8 = (frame_length / 256) as u8;
    let low: u8 = (frame_length % 256) as u8;
    let mut payload: Vec<u8> = Vec::new();
    let mut offset: usize = 0;
    proof {
        reveal_with_fuel(be_bytes, 3);
        assert(frame_tag(frame_length as nat) =~= seq![high, low]);
        assert(raw@.skip(0) =~= raw@);
    }
    while raw.len() - offset >= size
        invariant
            size == frame_length,
            1 <= frame_length <= 0xFFFF,
            offset <= raw@.len(),
            frame_tag(frame_length as nat) == seq![high, low],
            payload@ + tagged_frames(raw@.skip(offset as int), frame_length as nat)
                == tagged_frames(raw@, frame_length as nat),
        decreases raw@.len() - offset,
    {
        let ghost rest = raw@.skip(offset as int);
        let ghost earlier = payload@;
        payload.push(high);
        payload.push(low);
        payload.extend_from_slice(&raw[offset..offset + size]);
        proof {
            assert(raw@.subrange(offset as int, offset + size) =~= rest.take(size as int));
            assert(rest.skip(size as int) =~= raw@.skip(offset + size));
            assert(payload@ =~= earlier + (frame_tag(frame_length as nat) + rest.take(
                size as int,
            )));
            assert(payload@ + tagged_frames(raw@.skip(offset + size), frame_length as nat)
                =~= earlier + tagged_frames(rest, frame_length as nat));
        }
        offset += size;
    }
    proof {
        assert(tagged_frames(raw@.skip(offset as int), frame_length as nat) =~= Seq::<u8>::empty());
        assert(payload@ =~= tagged_frames(raw@, frame_length as nat));
    }
    payload
}

impl Packetizer {
    /// Whether the packetizer's invariant holds.
    pub open spec fn wf(&self) -> bool {
        well_formed(self@)
    }

    /// A packetizer for frames of `frame_length` bytes, `frames_per_datagram`
    /// to a datagram, that numbers its datagrams from zero; none where a
    /// length is zero, the frame length does not fit its two-byte marker, or
    /// the payload would not fit the 32-bit length field.
    pub fn new(frame_length: u32, frames_per_datagram: usize) -> (packetizer: Option<Packetizer>)
        ensures
            packetizer is Some <==> 1 <= frame_length <= 0xFFFF && 1 <= frames_per_datagram
                && frames_per_datagram * (frame_length + 2) <= u32::MAX,
            packetizer is Some ==> packetizer->0.wf() && packetizer->0@ == (PacketizerView {
                frame_length: frame_length as nat,
                frames_per_datagram: frames_per_datagram as nat,
                pending: Seq::empty(),
                sequence_number: 0,
                last_timestamp_ms: 0,
            }),
    {
        if frame_length == 0 || frame_length > 0xFFFF || frames_per_datagram == 0 {
            return None;
        }
        let limit: u64 = 0xFFFF_FFFF / (frame_length as u64 + 2);
        proof {
            let stride = frame_length as int + 2;
            let n = frames_per_datagram as int;
            assert(n <= 0xFFFF_FFFFint / stride <==> n * stride <= 0xFFFF_FFFF)
                by (nonlinear_arith)
                requires
                    stride > 0,
            ;
        }
        if frames_per_datagram as u64 > limit {
            return None;
        }
        let packetizer = Packetizer {
            frame_length,
            frames_per_datagram,
            pending: Vec::new(),
            sequence_number: 0,
            last_timestamp_ms: 0,
        };
        proof {
            assert(batch_len(packetizer@) >= 1) by (nonlinear_arith)
                requires
                    batch_len(packetizer@) == frames_per_datagram * frame_length,
                    frames_per_datagram >= 1,
                    frame_length >= 1,
            ;
        }
        Some(packetizer)
    }

    /// The sequence number of the next datagram.
    pub fn sequence_number(&self) -> (next: u32)
        ensures
            next == self@.sequence_number,
    {
        self.sequence_number
    }

    /// The latest time that the packetizer was given.
    pub fn last_timestamp_ms(&self) -> (latest: u128)
        ensures
            latest == self@.last_timestamp_ms,
    {
        self.last_timestamp_ms
    }

    /// How many coded bytes wait for their batch to fill.
    pub fn pending_len(&self) -> (waiting: usize)
        ensures
            waiting == self@.pending.len(),
    {
        self.pending.len()
    }

    /// Takes in the coded bytes of `block` at the time `now_ms`, in
    /// milliseconds since the epoch, and returns the datagrams that became
    /// full, oldest first.
    pub fn push_bytes(&mut self, block: &[u8], now_ms: u128) -> (datagrams: Vec<Vec<u8>>)
        requires
            old(self).wf(),
        ensures
            final(self).wf(),
            final(self)@ == after_bytes(old(self)@, block@, now_ms),
            datagram_list(datagrams@) == datagrams_after_bytes(old(self)@, block@, now_ms),
            final(self)@.last_timestamp_ms >= old(self)@.last_timestamp_ms,
    {
        let timestamp_ms: u128 = if now_ms < self.last_timestamp_ms {
            self.last_timestamp_ms
        } else {
            now_ms
        };
        let ghost all = self@.pending + block@;
        let ghost start = self@;
        let ghost frame_length = self@.frame_length;
        self.pending.extend_from_slice(block);
        self.last_timestamp_ms = timestamp_ms;
        assert(self.pending@ =~= all);
        proof {
            let n = self.frames_per_datagram as int;
            let f = self.frame_length as int;
            assert(0 <= n * f <= n * (f + 2)) by (nonlinear_arith)
                requires
                    n >= 0,
                    f >= 0,
            ;
        }
        let batch: usize = self.frames_per_datagram * self.frame_length as usize;
        let mut datagrams: Vec<Vec<u8>> = Vec::new();
        assert(datagram_list(datagrams@) + datagrams_from(
            frame_length,
            batch as nat,
            self.sequence_number,
            self.pending@,
            timestamp_ms,
        ) =~= datagrams_after_bytes(start, block@, now_ms));
        while self.pending.len() >= batch
            invariant
                batch == batch_len(start),
                batch >= 1,
                well_formed(start),
                frame_length == start.frame_length,
                self.frame_length == start.frame_length,
                self.frames_per_datagram == start.frames_per_datagram,
                datagram_list(datagrams@) + datagrams_from(
                    frame_length,
                    batch as nat,
                    self.sequence_number,
                    self.pending@,
                    timestamp_ms,
                ) == datagrams_after_bytes(start, block@, now_ms),
                timestamp_ms == stamp_at(start, now_ms),
                self.last_timestamp_ms == timestamp_ms,
                behind_batches(batch as nat, self.pending@) == behind_batches(batch as nat, all),
                sequence_after(batch as nat, self.sequence_number, self.pending@.len())
                    == sequence_after(batch as nat, start.sequence_number, all.len()),
            decreases self.pending@.len(),
        {
            let ghost held = self.pending@;
            let ghost number = self.sequence_number;
            let ghost listed = datagrams@;
            let mut raw = self.pending.split_off(batch);
            core::mem::swap(&mut self.pending, &mut raw);
            let payload = tag_frames(raw.as_slice(), self.frame_length);
            proof {
                lemma_tagged_frames_len(raw@, start.frame_length, start.frames_per_datagram);
            }
            let datagram = create_packet(
                payload.as_slice(),
                self.sequence_number,
                timestamp_ms,
                self.frame_length,
            );
            self.sequence_number = self.sequence_number.wrapping_add(1);
            datagrams.push(datagram);
            proof {
                assert(raw@ =~= held.take(batch as int));
                assert(self.pending@ =~= held.skip(batch as int));
                assert(self.sequence_number == next_sequence(number));
                assert(datagram@ == datagram_of(frame_length, number, raw@, timestamp_ms));
                assert(datagram_list(datagrams@) =~= datagram_list(listed).push(datagram@));
                assert(datagram_list(datagrams@) + datagrams_from(
                    frame_length,
                    batch as nat,
                    self.sequence_number,
                    self.pending@,
                    timestamp_ms,
                ) =~= datagram_list(listed) + datagrams_from(
                    frame_length,
                    batch as nat,
                    number,
                    held,
                    timestamp_ms,
                ));
            }
        }
        proof {
            assert(datagrams_from(
                frame_length,
                batch as nat,
                self.sequence_number,
                self.pending@,
                timestamp_ms,
            ) =~= Seq::<Seq<u8>>::empty());
            assert(datagram_list(datagrams@) =~= datagrams_after_bytes(start, block@, now_ms));
        }
        datagrams
    }
}

} // verus!
