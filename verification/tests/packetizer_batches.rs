use audio_sync::decoder::split_frames;
use audio_sync::packetizer::{Packetizer, FRAMES_PER_DATAGRAM};
use audio_sync::wire::parse_datagram;

#[test]
fn new_checks_its_parameters() {
    assert!(Packetizer::new(0, 20).is_none());
    assert!(Packetizer::new(160, 0).is_none());
    assert!(Packetizer::new(0x1_0000, 20).is_none());
    assert!(Packetizer::new(0xFFFF, 65_536).is_none());
    assert!(Packetizer::new(0xFFFF, 65_535).is_some());
    let p = Packetizer::new(160, FRAMES_PER_DATAGRAM).unwrap();
    assert_eq!(p.sequence_number(), 0);
    assert_eq!(p.pending_len(), 0);
}

#[test]
fn a_datagram_leaves_when_the_batch_is_full() {
    let mut p = Packetizer::new(3, 2).unwrap();
    assert!(p.push_bytes(&[1, 2, 3], 5).is_empty());
    assert_eq!(p.pending_len(), 3);
    let out = p.push_bytes(&[4, 5, 6, 7], 6);
    assert_eq!(out.len(), 1);
    assert_eq!(p.pending_len(), 1);
    assert_eq!(p.sequence_number(), 1);
    let d = parse_datagram(&out[0]).unwrap();
    assert_eq!(d.sequence_number, 0);
    assert_eq!(d.timestamp_ms, 6);
    assert_eq!(d.frame_size, 3);
    assert_eq!(d.payload, vec![0, 3, 1, 2, 3, 0, 3, 4, 5, 6]);
}

#[test]
fn one_push_can_fill_several_datagrams() {
    let mut p = Packetizer::new(2, 2).unwrap();
    let bytes: Vec<u8> = (1..=11).collect();
    let out = p.push_bytes(&bytes, 9);
    assert_eq!(out.len(), 2);
    assert_eq!(p.pending_len(), 3);
    assert_eq!(p.sequence_number(), 2);
    let first = parse_datagram(&out[0]).unwrap();
    let second = parse_datagram(&out[1]).unwrap();
    assert_eq!((first.sequence_number, second.sequence_number), (0, 1));
    assert_eq!(first.payload, vec![0, 2, 1, 2, 0, 2, 3, 4]);
    assert_eq!(second.payload, vec![0, 2, 5, 6, 0, 2, 7, 8]);
    let out = p.push_bytes(&[12], 9);
    assert_eq!(out.len(), 1);
    assert_eq!(parse_datagram(&out[0]).unwrap().payload, vec![0, 2, 9, 10, 0, 2, 11, 12]);
}

#[test]
fn the_marker_holds_the_frame_length() {
    let mut p = Packetizer::new(0x0102, 1).unwrap();
    let out = p.push_bytes(&vec![7u8; 0x0102], 0);
    let d = parse_datagram(&out[0]).unwrap();
    assert_eq!(&d.payload[..2], &[1, 2]);
    assert_eq!(d.payload.len(), 0x0104);
    assert_eq!(d.frame_size, 0x0102);
}

#[test]
fn what_is_packed_is_split_again() {
    let mut p = Packetizer::new(160, 20).unwrap();
    let coded: Vec<u8> = (0..3200u32).map(|i| (i % 251) as u8).collect();
    let out = p.push_bytes(&coded, 1234);
    assert_eq!(out.len(), 1);
    assert_eq!(out[0].len(), 3280);
    let d = parse_datagram(&out[0]).unwrap();
    let frames = split_frames(&d.payload, d.frame_size);
    assert_eq!(frames.len(), 20);
    assert_eq!(frames.concat(), coded);
}

#[test]
fn sequence_numbers_count_datagrams() {
    let mut p = Packetizer::new(1, 1).unwrap();
    for expected in 0..5u32 {
        let out = p.push_bytes(&[0], 0);
        assert_eq!(parse_datagram(&out[0]).unwrap().sequence_number, expected);
    }
    assert_eq!(p.sequence_number(), 5);
}

#[test]
fn timestamps_never_go_back() {
    let mut p = Packetizer::new(1, 1).unwrap();
    let stamps: Vec<u128> = [100u128, 90, 120, 119, 120]
        .iter()
        .map(|now| parse_datagram(&p.push_bytes(&[0], *now)[0]).unwrap().timestamp_ms)
        .collect();
    assert_eq!(stamps, vec![100, 100, 120, 120, 120]);
    assert_eq!(p.last_timestamp_ms(), 120);
}
