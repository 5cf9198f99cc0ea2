use audio_sync::delay::{fill_audio_data, prime_target, DelayBuffer};

#[test]
fn new_rejects_a_block_size_of_zero() {
    assert!(DelayBuffer::<f32>::new(0).is_none());
    assert!(DelayBuffer::<f32>::new(usize::MAX / 100 + 1).is_none());
    let buffer = DelayBuffer::<f32>::new(960).unwrap();
    assert_eq!(buffer.capacity(), 96_000);
    assert_eq!(buffer.len(), 0);
    assert_eq!(buffer.underruns(), 0);
}

#[test]
fn push_block_appends_in_order() {
    let mut buffer = DelayBuffer::new(2).unwrap();
    buffer.push_block(&[1.0f32, 2.0]);
    buffer.push_block(&[3.0, 4.0]);
    assert_eq!(buffer.len(), 4);
    let mut out = [9.0f32; 4];
    fill_audio_data(&mut out, &mut buffer, 0.0);
    assert_eq!(out, [1.0, 2.0, 3.0, 4.0]);
    assert_eq!(buffer.underruns(), 0);
}

#[test]
fn delay_buffer_never_exceeds_its_capacity() {
    let mut buffer = DelayBuffer::new(960).unwrap();
    for block in 0..333u32 {
        buffer.push_block(&vec![block as f32; 960]);
        assert!(buffer.len() <= 96_000);
    }
    assert_eq!(buffer.len(), 96_000);
    // the oldest blocks went: the front is block 233
    assert_eq!(buffer.pop_sample(0.0), 233.0);
}

#[test]
fn overflow_drops_whole_blocks_from_the_front() {
    let mut buffer = DelayBuffer::new(2).unwrap();
    let first: Vec<u32> = (0..199).collect();
    buffer.push_block(&first);
    assert_eq!(buffer.len(), 199);
    // 199 + 6 = 205 samples: five over the capacity of 200, so three blocks of two go
    buffer.push_block(&[199, 200, 201, 202, 203, 204]);
    assert_eq!(buffer.len(), 199);
    assert_eq!(buffer.pop_sample(u32::MAX), 6);
}

#[test]
fn a_push_that_lands_on_the_capacity_drops_nothing() {
    let mut buffer = DelayBuffer::new(1).unwrap();
    let all: Vec<u8> = (0..100).collect();
    buffer.push_block(&all);
    assert_eq!(buffer.len(), 100);
    assert_eq!(buffer.pop_sample(255), 0);
    buffer.push_block(&[100, 101, 102]);
    assert_eq!(buffer.len(), 100);
    assert_eq!(buffer.pop_sample(255), 3);
}

#[test]
fn underrun() {
    let mut buffer = DelayBuffer::<f32>::new(960).unwrap();
    let mut out = [1.0f32; 480];
    fill_audio_data(&mut out, &mut buffer, 0.0);
    assert!(out.iter().all(|s| *s == 0.0));
    assert_eq!(buffer.underruns(), 1);
    assert_eq!(buffer.len(), 0);
    fill_audio_data(&mut out, &mut buffer, 0.0);
    assert_eq!(buffer.underruns(), 2);
}

#[test]
fn a_short_queue_is_padded_with_silence() {
    let mut buffer = DelayBuffer::new(4).unwrap();
    buffer.push_block(&[1.0f32, 2.0, 3.0]);
    let mut out = [9.0f32; 5];
    fill_audio_data(&mut out, &mut buffer, 0.0);
    assert_eq!(out, [1.0, 2.0, 3.0, 0.0, 0.0]);
    assert_eq!(buffer.len(), 0);
    assert_eq!(buffer.underruns(), 1);
}

#[test]
fn a_fill_takes_only_what_it_was_asked_for() {
    let mut buffer = DelayBuffer::new(4).unwrap();
    buffer.push_block(&[1i16, 2, 3, 4, 5]);
    let mut out = [0i16; 2];
    fill_audio_data(&mut out, &mut buffer, 0);
    assert_eq!(out, [1, 2]);
    assert_eq!(buffer.len(), 3);
    assert_eq!(buffer.underruns(), 0);
    let mut none: [i16; 0] = [];
    fill_audio_data(&mut none, &mut buffer, 0);
    assert_eq!(buffer.len(), 3);
    assert_eq!(buffer.underruns(), 0);
}

#[test]
fn pop_sample_gives_silence_on_empty() {
    let mut buffer = DelayBuffer::new(4).unwrap();
    assert_eq!(buffer.pop_sample(-1i32), -1);
    buffer.push_block(&[7, 8]);
    assert_eq!(buffer.pop_sample(-1), 7);
    assert_eq!(buffer.pop_sample(-1), 8);
    assert_eq!(buffer.pop_sample(-1), -1);
    assert_eq!(buffer.underruns(), 0);
}

#[test]
fn prime_fill_is_four_fifths_of_the_target() {
    let mut buffer = DelayBuffer::new(960).unwrap();
    let target = prime_target(1, 960, 1).unwrap();
    assert_eq!(target, 960);
    buffer.push_block(&vec![0.0f32; 767]);
    assert!(!buffer.is_primed(target));
    buffer.push_block(&[0.0]);
    assert!(buffer.is_primed(target));
    assert!(buffer.is_primed(0));
    // four fifths of 7 is 5, rounded down
    let mut small = DelayBuffer::new(10).unwrap();
    small.push_block(&[0u8; 4]);
    assert!(!small.is_primed(7));
    small.push_block(&[0u8]);
    assert!(small.is_primed(7));
    assert!(!small.is_primed(usize::MAX));
}

#[test]
fn prime_target_multiplies() {
    assert_eq!(prime_target(2, 960, 3), Some(5760));
    assert_eq!(prime_target(2, usize::MAX, 1), None);
    assert_eq!(prime_target(2, usize::MAX, 0), Some(0));
    assert_eq!(prime_target(1, usize::MAX, 2), None);
}

#[test]
fn push_blocks_pushes_each_in_turn() {
    let mut buffer = DelayBuffer::new(1).unwrap();
    let blocks: Vec<Vec<u32>> = vec![(0..60).collect(), (60..130).collect(), vec![], vec![130]];
    buffer.push_blocks(&blocks);
    assert_eq!(buffer.len(), 100);
    assert_eq!(buffer.pop_sample(0), 31);
}
