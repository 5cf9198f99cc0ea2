//! The receiver stage: one received datagram in, at most one packet record
//! into the jitter buffer.

use crate::decoder::{byte_strings, frames_of, split_frames};
use crate::jitter::{after_add, JitterBuffer, JitterView, PacketRecord, RecordView};
use crate::wire::{parse_datagram, parse_spec, DatagramView, ParseError};
use vstd::prelude::*;

verus! {

/// The largest payload of one datagram: twenty frames of 160 bytes, each
/// behind its two-byte marker.
pub const PAYLOAD_SIZE: usize = 20 * (160 + 2);

/// The size of the buffer that datagrams are received into: header and
/// largest payload.
pub const MAX_PACKET_SIZE: usize = 40 + 20 * (160 + 2);

/// The record that the jitter buffer keeps of a datagram.
pub open spec fn record_of(d: DatagramView) -> RecordView {
    RecordView {
        sequence_number: d.sequence_number,
        frame_size: d.frame_size,
        payload: d.payload,
    }
}

/// Takes in one received datagram.  A datagram that does not parse is
/// discarded and leaves the buffer as it was; any other goes into the jitter
/// buffer as one record.
pub fn receive_datagram(buffer: &mut JitterBuffer, datagram: &[u8]) -> (outcome: Result<
    (),
    ParseError,
>)
    requires
        old(buffer).wf(),
    ensures
        final(buffer).wf(),
        match parse_spec(datagram@) {
            Ok(d) => outcome is Ok && final(buffer)@ == after_add(old(buffer)@, record_of(d)),
            Err(e) => outcome == Err::<(), ParseError>(e) && final(buffer)@ == old(buffer)@,
        },
{
    match parse_datagram(datagram) {
        Ok(d) => {
            let packet = PacketRecord {
                sequence_number: d.sequence_number,
                frame_size: d.frame_size,
                payload: d.payload,
            };
            buffer.add_packet(packet);
            Ok(())
        },
        Err(e) => Err(e),
    }
}

/// The coded frames of a run of released records, in order: each record's
/// payload cut by the record's own frame length.
pub open spec fn frames_of_records(records: Seq<RecordView>) -> Seq<Seq<u8>>
    decreases records.len(),
{
    if records.len() == 0 {
        Seq::empty()
    } else {
        frames_of_records(records.drop_last()) + frames_of(
            records.last().payload,
            records.last().frame_size as nat,
        )
    }
}

/// Fetches every released record from the jitter buffer and returns their
/// coded frames in order, ready for the codec.
pub fn take_released_frames(buffer: &mut JitterBuffer) -> (frames: Vec<Vec<u8>>)
    requires
        old(buffer).wf(),
    ensures
        final(buffer).wf(),
        final(buffer)@ == (JitterView { released: Seq::empty(), ..old(buffer)@ }),
        byte_strings(frames@) == frames_of_records(old(buffer)@.released),
{
    let ghost waiting = buffer@.released;
    let mut frames: Vec<Vec<u8>> = Vec::new();
    let ghost mut taken: int = 0;
    proof {
        assert(waiting.skip(0) =~= waiting);
        assert(waiting.take(0) =~= Seq::<RecordView>::empty());
        assert(byte_strings(frames@) =~= frames_of_records(waiting.take(0)));
    }
    loop
        invariant_except_break
            0 <= taken <= waiting.len(),
            buffer@ == (JitterView { released: waiting.skip(taken), ..old(buffer)@ }),
            byte_strings(frames@) == frames_of_records(waiting.take(taken)),
        invariant
            buffer.wf(),
            waiting == old(buffer)@.released,
        ensures
            buffer@ == (JitterView { released: Seq::empty(), ..old(buffer)@ }),
            byte_strings(frames@) == frames_of_records(waiting),
        decreases waiting.len() - taken,
    {
        match buffer.get_next_packet() {
            Some(record) => {
                let ghost earlier = frames@;
                let mut more = split_frames(record.payload.as_slice(), record.frame_size);
                let ghost added = more@;
                frames.append(&mut more);
                proof {
                    assert(waiting.take(taken + 1).drop_last() =~= waiting.take(taken));
                    assert(waiting.take(taken + 1).last() == record@);
                    assert(byte_strings(frames@) =~= byte_strings(earlier) + byte_strings(added));
                    assert(waiting.skip(taken).drop_first() =~= waiting.skip(taken + 1));
                    taken = taken + 1;
                }
            },
            None => {
                proof {
                    assert(waiting.take(taken) =~= waiting);
                    assert(waiting.skip(taken) =~= Seq::<RecordView>::empty());
                }
                break ;
            },
        }
    }
    frames
}

} // verus!
