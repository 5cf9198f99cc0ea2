use audio_sync::decoder::{
    decode_buffer_len, decoded_len, repeat_previous_frame, split_frames, BlockAccumulator,
};
use audio_sync::settings::{Settings, StreamParams};

#[test]
fn split_frames_skips_each_marker() {
    let payload = [0xAA, 0xBB, 1, 2, 3, 0xCC, 0xDD, 4, 5, 6];
    assert_eq!(split_frames(&payload, 3), vec![vec![1, 2, 3], vec![4, 5, 6]]);
}

#[test]
fn split_frames_leaves_out_an_incomplete_frame() {
    let payload = [0, 0, 1, 2, 3, 0, 0, 4, 5];
    assert_eq!(split_frames(&payload, 3), vec![vec![1, 2, 3]]);
    assert!(split_frames(&payload[..4], 3).is_empty());
    assert!(split_frames(&[], 3).is_empty());
    assert!(split_frames(&payload, u32::MAX).is_empty());
}

#[test]
fn split_frames_of_length_zero_are_empty_frames() {
    let payload = [0, 0, 0, 0, 0];
    assert_eq!(split_frames(&payload, 0), vec![Vec::<u8>::new(), Vec::new()]);
}

#[test]
fn repeat_previous_frame_is_silent_without_history() {
    assert_eq!(repeat_previous_frame(&[], 4, 0.0f32), vec![0.0f32; 4]);
}

#[test]
fn repeat_previous_frame_cycles_through_the_history() {
    assert_eq!(
        repeat_previous_frame(&[1.0f32, 2.0, 3.0], 7, 0.0),
        vec![1.0, 2.0, 3.0, 1.0, 2.0, 3.0, 1.0]
    );
    assert_eq!(repeat_previous_frame(&[1.0f32, 2.0, 3.0], 2, 0.0), vec![1.0, 2.0]);
    assert!(repeat_previous_frame(&[1.0f32], 0, 0.0).is_empty());
}

#[test]
fn blocks_have_exactly_the_block_length() {
    let mut acc = BlockAccumulator::new(4, 3, 0.0f32);
    assert!(acc.push_frame(&[1.0, 2.0, 3.0]).is_empty());
    assert_eq!(acc.len(), 3);
    assert_eq!(acc.push_frame(&[4.0, 5.0, 6.0]), vec![vec![1.0, 2.0, 3.0, 4.0]]);
    assert_eq!(acc.len(), 2);
    // a failed decode repeats what is gathered: 5, 6, 5
    assert_eq!(acc.push_frame(&[]), vec![vec![5.0, 6.0, 5.0, 6.0]]);
    assert_eq!(acc.len(), 1);
}

#[test]
fn a_failed_decode_at_startup_is_silence() {
    let mut acc = BlockAccumulator::new(2, 3, 0.0f32);
    assert_eq!(acc.push_frame(&[]), vec![vec![0.0, 0.0]]);
    assert_eq!(acc.len(), 1);
}

#[test]
fn every_whole_block_leaves_at_once() {
    let mut acc = BlockAccumulator::new(2, 2, 0i16);
    assert_eq!(acc.push_frame(&[1, 2, 3, 4, 5]), vec![vec![1, 2], vec![3, 4]]);
    assert_eq!(acc.len(), 1);
    assert_eq!(acc.push_frame(&[6]), vec![vec![5, 6]]);
    assert_eq!(acc.len(), 0);
    assert_eq!(acc.push_frame(&[7, 8, 9, 10, 11, 12]), vec![vec![7, 8], vec![9, 10], vec![11, 12]]);
    assert_eq!(acc.len(), 0);
}

#[test]
fn a_long_concealment_frame_fills_several_blocks() {
    let mut acc = BlockAccumulator::new(2, 5, 0i16);
    assert_eq!(acc.push_concealment(), vec![vec![0, 0], vec![0, 0]]);
    assert_eq!(acc.len(), 1);
    assert_eq!(acc.push_frame(&[4]), vec![vec![0, 4]]);
    assert_eq!(acc.push_frame(&[5]), Vec::<Vec<i16>>::new());
    // five samples that repeat the one gathered
    assert_eq!(acc.push_concealment(), vec![vec![5, 5], vec![5, 5], vec![5, 5]]);
    assert_eq!(acc.len(), 0);
}

#[test]
fn blocks_do_not_depend_on_how_the_samples_are_framed() {
    let stream: Vec<u16> = (0..1000).collect();
    let whole: Vec<Vec<u16>> = stream.chunks_exact(96).map(|c| c.to_vec()).collect();
    for frame_len in [1usize, 7, 96, 100, 192, 500, 1000] {
        let mut acc = BlockAccumulator::new(96, 10, 0u16);
        let decoded: Vec<Vec<u16>> = stream.chunks(frame_len).map(|c| c.to_vec()).collect();
        let blocks = acc.push_frames(&decoded);
        assert_eq!(blocks, whole, "frames of {}", frame_len);
        assert_eq!(blocks.len(), 1000 / 96);
        assert_eq!(acc.len(), 1000 % 96);
    }
}

#[test]
fn frames_of_two_blocks_leave_nothing_behind() {
    let mut acc = BlockAccumulator::new(960, 960, 0.0f32);
    for frame in 0..50u32 {
        let blocks = acc.push_frame(&vec![frame as f32; 1920]);
        assert_eq!(blocks.len(), 2);
        assert!(blocks.iter().all(|b| b.len() == 960 && b.iter().all(|s| *s == frame as f32)));
        assert_eq!(acc.len(), 0);
    }
}

#[test]
fn push_frames_walks_a_whole_packet() {
    let mut acc = BlockAccumulator::new(3, 2, 0i16);
    let decoded = vec![vec![1, 2], vec![], vec![3, 4], vec![5]];
    let blocks = acc.push_frames(&decoded);
    // gathered: [1,2] -> [1,2,1,2] -> block [1,2,1], left [2] -> [2,3,4] -> block, left [] -> [5]
    assert_eq!(blocks, vec![vec![1, 2, 1], vec![2, 3, 4]]);
    assert_eq!(acc.len(), 1);
}

#[test]
fn clean_stream_gives_333_blocks() {
    // 100 datagrams of 20 frames, each frame standing for 160 samples, blocks of 960.
    let mut acc = BlockAccumulator::new(960, 160, 0.0f32);
    let mut blocks = 0usize;
    for datagram in 0..100u32 {
        let mut payload = Vec::new();
        for _ in 0..20 {
            payload.extend_from_slice(&[0, 160]);
            payload.extend(std::iter::repeat(datagram as u8).take(160));
        }
        let frames = split_frames(&payload, 160);
        assert_eq!(frames.len(), 20);
        let decoded: Vec<Vec<f32>> =
            frames.iter().map(|f| f.iter().map(|b| *b as f32).collect()).collect();
        for block in acc.push_frames(&decoded) {
            assert_eq!(block.len(), 960);
            blocks += 1;
        }
    }
    assert_eq!(blocks, 333);
    assert_eq!(acc.len(), 100 * 20 * 160 - 333 * 960);
}

#[test]
fn push_samples_cuts_every_whole_block() {
    let mut acc = BlockAccumulator::new(3, 3, 0u8);
    assert!(acc.push_samples(&[1, 2]).is_empty());
    assert_eq!(acc.push_samples(&[3, 4, 5, 6, 7, 8]), vec![vec![1, 2, 3], vec![4, 5, 6]]);
    assert_eq!(acc.len(), 2);
    assert_eq!(acc.push_samples(&[9]), vec![vec![7, 8, 9]]);
    assert_eq!(acc.len(), 0);
}

#[test]
fn for_stream_takes_its_lengths_from_the_parameters() {
    let params = StreamParams::new(48000, 2, 480, 960).unwrap();
    let mut acc = BlockAccumulator::for_stream(&params, 0.0f32);
    assert_eq!(acc.block_len(), 1920);
    // a failed decode at startup: 480 * 2 samples of silence
    assert!(acc.push_frame(&[]).is_empty());
    assert_eq!(acc.len(), 960);
    let mono: StreamParams = Settings::get_default_settings();
    assert_eq!(BlockAccumulator::for_stream(&mono, 0.0f32).block_len(), 960);
}

#[test]
fn decode_buffer_sizes() {
    assert_eq!(decode_buffer_len(1), 5760);
    assert_eq!(decode_buffer_len(2), 11520);
    assert_eq!(decoded_len(960, 2, 11520), 1920);
    assert_eq!(decoded_len(6000, 2, 11520), 11520);
    assert_eq!(decoded_len(usize::MAX, 2, 11520), 11520);
}

#[test]
fn push_concealment_repeats_what_is_gathered() {
    let mut acc = BlockAccumulator::new(5, 4, 0i16);
    assert!(acc.push_concealment().is_empty());
    assert_eq!(acc.len(), 4);
    assert_eq!(acc.push_frame(&[7]), vec![vec![0, 0, 0, 0, 7]]);
    assert!(acc.push_frame(&[8, 9]).is_empty());
    assert_eq!(acc.push_concealment(), vec![vec![8, 9, 8, 9, 8]]);
    assert_eq!(acc.len(), 1);
}
