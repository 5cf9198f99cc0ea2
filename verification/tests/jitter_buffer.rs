use audio_sync::jitter::{JitterBuffer, PacketRecord};

fn record(sequence_number: u32, fill: u8) -> PacketRecord {
    PacketRecord { sequence_number, frame_size: 160, payload: vec![fill; 4] }
}

fn drain(buffer: &mut JitterBuffer) -> Vec<PacketRecord> {
    let mut out = Vec::new();
    while let Some(r) = buffer.get_next_packet() {
        out.push(r);
    }
    out
}

fn sequences(records: &[PacketRecord]) -> Vec<u32> {
    records.iter().map(|r| r.sequence_number).collect()
}

#[test]
fn nothing_is_released_below_the_threshold() {
    let mut buffer = JitterBuffer::with_parameters(4, 8);
    for s in [2u32, 1, 3] {
        buffer.add_packet(record(s, s as u8));
        assert!(buffer.get_next_packet().is_none());
    }
    assert_eq!(buffer.len(), 3);
    assert_eq!(buffer.released_len(), 0);
    assert_eq!(buffer.high_water(), None);
}

#[test]
fn reorder_within_window() {
    let mut buffer = JitterBuffer::with_parameters(4, 8);
    for s in [2u32, 1, 3, 4] {
        buffer.add_packet(record(s, s as u8));
    }
    assert_eq!(buffer.len(), 0);
    let out = drain(&mut buffer);
    assert_eq!(sequences(&out), vec![1, 2, 3, 4]);
    for r in &out {
        assert_eq!(r.payload, vec![r.sequence_number as u8; 4]);
    }
    assert_eq!(buffer.high_water(), Some(4));
}

#[test]
fn loss_of_one() {
    let mut buffer = JitterBuffer::with_parameters(4, 8);
    for s in [1u32, 2, 4, 5] {
        buffer.add_packet(record(s, s as u8));
    }
    let out = drain(&mut buffer);
    assert_eq!(sequences(&out), vec![1, 2, 3, 4, 5]);
    assert_eq!(out[2].payload, out[1].payload);
    assert_eq!(out[2].payload, vec![2u8; 4]);
    assert_eq!(out[3].payload, vec![4u8; 4]);
}

#[test]
fn a_long_gap_repeats_the_record_in_front_of_it() {
    let mut buffer = JitterBuffer::with_parameters(2, 8);
    buffer.add_packet(record(10, 1));
    buffer.add_packet(PacketRecord { sequence_number: 14, frame_size: 80, payload: vec![2; 3] });
    let out = drain(&mut buffer);
    assert_eq!(sequences(&out), vec![10, 11, 12, 13, 14]);
    for r in &out[1..4] {
        assert_eq!(r.payload, vec![1u8; 4]);
        // a concealment record carries the frame length of the packet that set off the drain
        assert_eq!(r.frame_size, 80);
    }
    assert_eq!(out[0].frame_size, 160);
    assert_eq!(out[4].payload, vec![2u8; 3]);
}

#[test]
fn a_gap_beyond_the_window_is_passed_on() {
    let mut buffer = JitterBuffer::with_parameters(3, 2);
    buffer.add_packet(record(1, 1));
    buffer.add_packet(record(5, 5));
    buffer.add_packet(record(7, 7));
    let out = drain(&mut buffer);
    // three numbers are missing between 1 and 5, one between 5 and 7
    assert_eq!(sequences(&out), vec![1, 5, 6, 7]);
    assert_eq!(out[2].payload, vec![5u8; 4]);
}

#[test]
fn a_window_of_zero_conceals_nothing() {
    let mut buffer = JitterBuffer::with_parameters(2, 0);
    buffer.add_packet(record(1, 1));
    buffer.add_packet(record(3, 3));
    assert_eq!(sequences(&drain(&mut buffer)), vec![1, 3]);
}

#[test]
fn late_arrivals_are_discarded() {
    let mut buffer = JitterBuffer::with_parameters(2, 8);
    buffer.add_packet(record(5, 5));
    buffer.add_packet(record(6, 6));
    assert_eq!(sequences(&drain(&mut buffer)), vec![5, 6]);
    buffer.add_packet(record(4, 4));
    buffer.add_packet(record(6, 9));
    assert_eq!(buffer.len(), 0);
    assert_eq!(buffer.released_len(), 0);
    buffer.add_packet(record(8, 8));
    buffer.add_packet(record(7, 7));
    assert_eq!(sequences(&drain(&mut buffer)), vec![7, 8]);
    assert_eq!(buffer.high_water(), Some(8));
}

#[test]
fn released_sequences_ascend_across_drains() {
    let mut buffer = JitterBuffer::with_parameters(3, 4);
    let mut seen: Vec<u32> = Vec::new();
    for s in [9u32, 3, 7, 1, 12, 8, 20, 11, 15, 2, 30, 25, 21] {
        buffer.add_packet(record(s, s as u8));
        seen.extend(sequences(&drain(&mut buffer)));
    }
    // {3, 7, 9} drains whole; 1 and 8 come late; {11, 12, 20} keeps its gap of seven;
    // 15 and 2 come late; {21, 25, 30} has gaps of three and four
    let mut expected: Vec<u32> = (3..=9).collect();
    expected.extend([11, 12, 20]);
    expected.extend(21..=30);
    assert_eq!(seen, expected);
    assert!(seen.windows(2).all(|w| w[0] < w[1]));
}

#[test]
fn a_second_packet_with_the_same_number_replaces_the_first() {
    let mut buffer = JitterBuffer::with_parameters(2, 8);
    buffer.add_packet(record(1, 1));
    buffer.add_packet(record(1, 9));
    assert_eq!(buffer.len(), 1);
    buffer.add_packet(record(2, 2));
    let out = drain(&mut buffer);
    assert_eq!(sequences(&out), vec![1, 2]);
    assert_eq!(out[0].payload, vec![9u8; 4]);
}

#[test]
fn a_threshold_of_one_releases_at_once() {
    let mut buffer = JitterBuffer::with_parameters(1, 8);
    buffer.add_packet(record(3, 3));
    assert_eq!(sequences(&drain(&mut buffer)), vec![3]);
    buffer.add_packet(record(6, 6));
    assert_eq!(sequences(&drain(&mut buffer)), vec![6]);
}

#[test]
fn new_uses_the_defaults() {
    let mut buffer = JitterBuffer::new();
    assert_eq!(buffer.release_threshold(), 5);
    assert_eq!(buffer.concealment_window(), u32::MAX);
    for s in [1u32, 2, 3, 4] {
        buffer.add_packet(record(s, 0));
    }
    assert_eq!(buffer.released_len(), 0);
    buffer.add_packet(record(5, 0));
    assert_eq!(buffer.released_len(), 5);
}

#[test]
fn the_ends_of_the_sequence_space_are_released() {
    let mut buffer = JitterBuffer::with_parameters(2, 1);
    buffer.add_packet(record(0, 1));
    buffer.add_packet(record(u32::MAX, 2));
    assert_eq!(sequences(&drain(&mut buffer)), vec![0, u32::MAX]);
    buffer.add_packet(record(u32::MAX, 3));
    assert_eq!(buffer.len(), 0);
}

#[test]
fn duplicate_copies_the_record() {
    let r = record(4, 7);
    let copy = r.duplicate();
    assert_eq!(copy.sequence_number, 4);
    assert_eq!(copy.frame_size, 160);
    assert_eq!(copy.payload, r.payload);
}
