use audio_sync::jitter::JitterBuffer;
use audio_sync::receiver::{
    receive_datagram, take_released_frames, MAX_PACKET_SIZE, PAYLOAD_SIZE,
};
use audio_sync::wire::{create_packet, ParseError};

#[test]
fn truncated_datagram_changes_nothing() {
    let mut buffer = JitterBuffer::with_parameters(2, 8);
    assert!(receive_datagram(&mut buffer, &create_packet(&[1, 2, 3], 1, 0, 1)).is_ok());
    let whole = create_packet(&[4, 5, 6], 2, 0, 1);
    let outcome = receive_datagram(&mut buffer, &whole[..whole.len() - 2]);
    assert_eq!(outcome, Err(ParseError::TruncatedDatagram));
    assert_eq!(buffer.len(), 1);
    assert_eq!(buffer.released_len(), 0);
    assert_eq!(buffer.high_water(), None);
}

#[test]
fn bad_magic_changes_nothing() {
    let mut buffer = JitterBuffer::with_parameters(1, 8);
    let mut bytes = create_packet(&[1, 2, 3], 1, 0, 1);
    bytes[12] = 0;
    assert_eq!(receive_datagram(&mut buffer, &bytes), Err(ParseError::BadMagic));
    assert_eq!(buffer.len(), 0);
    assert_eq!(buffer.released_len(), 0);
}

#[test]
fn received_datagrams_come_out_in_order() {
    let mut buffer = JitterBuffer::with_parameters(3, 8);
    for s in [12u32, 10, 11] {
        let bytes = create_packet(&[s as u8; 6], s, 1000 + s as u128, 4);
        assert_eq!(receive_datagram(&mut buffer, &bytes), Ok(()));
    }
    for s in [10u32, 11, 12] {
        let r = buffer.get_next_packet().unwrap();
        assert_eq!(r.sequence_number, s);
        assert_eq!(r.frame_size, 4);
        assert_eq!(r.payload, vec![s as u8; 6]);
    }
    assert!(buffer.get_next_packet().is_none());
}

#[test]
fn the_receive_buffer_holds_the_largest_datagram() {
    assert_eq!(PAYLOAD_SIZE, 3240);
    assert_eq!(MAX_PACKET_SIZE, 3280);
    let bytes = create_packet(&vec![0u8; PAYLOAD_SIZE], 1, 2, 160);
    assert_eq!(bytes.len(), MAX_PACKET_SIZE);
}

#[test]
fn released_frames_come_out_cut() {
    let mut buffer = JitterBuffer::with_parameters(2, 8);
    // two frames of three bytes, then one frame of two bytes and a stray byte
    let first = create_packet(&[0, 3, 1, 2, 3, 0, 3, 4, 5, 6], 1, 0, 3);
    let second = create_packet(&[0, 2, 7, 8, 9], 3, 0, 2);
    assert_eq!(receive_datagram(&mut buffer, &second), Ok(()));
    assert!(take_released_frames(&mut buffer).is_empty());
    assert_eq!(receive_datagram(&mut buffer, &first), Ok(()));
    let frames = take_released_frames(&mut buffer);
    // record 1 as it came, record 2 a copy of it under the frame length 3, then record 3
    assert_eq!(
        frames,
        vec![vec![1, 2, 3], vec![4, 5, 6], vec![1, 2, 3], vec![4, 5, 6], vec![7, 8]]
    );
    assert_eq!(buffer.released_len(), 0);
    assert_eq!(buffer.high_water(), Some(3));
    assert!(take_released_frames(&mut buffer).is_empty());
}
