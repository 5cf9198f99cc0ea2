use audio_sync::config::{BUFFER_SIZE, CHANNELS, CLIENT_PORT, SAMPLE_RATE, SERVER_PORT};
use audio_sync::playback::{fill_from_clip, spread_channels};
use audio_sync::settings::{
    channel_layout, choose_buffer_size, ApplicationSettings, ChannelLayout, Settings,
    StreamConfig, StreamParams, SupportedBufferSize,
};

#[test]
fn buffer_size_is_960_where_supported() {
    assert_eq!(choose_buffer_size(SupportedBufferSize::Unknown), 960);
    assert_eq!(choose_buffer_size(SupportedBufferSize::Range { min: 64, max: 4096 }), 960);
    assert_eq!(choose_buffer_size(SupportedBufferSize::Range { min: 960, max: 960 }), 960);
    assert_eq!(choose_buffer_size(SupportedBufferSize::Range { min: 64, max: 512 }), 512);
    assert_eq!(choose_buffer_size(SupportedBufferSize::Range { min: 1024, max: 4096 }), 4096);
}

#[test]
fn settings_for_a_device() {
    let settings =
        ApplicationSettings::for_device(2, SupportedBufferSize::Range { min: 64, max: 512 });
    assert_eq!(settings.get_sample_rate(), 48000);
    assert_eq!(settings.get_channels(), 2);
    assert_eq!(settings.get_buffer_size(), 512);
    assert_eq!(
        settings.create_stream_config(),
        StreamConfig { channels: 2, sample_rate: 48000, buffer_size: 512 }
    );
}

#[test]
fn channel_layout_is_mono_for_one_channel_only() {
    assert_eq!(channel_layout(1), ChannelLayout::Mono);
    assert_eq!(channel_layout(2), ChannelLayout::Stereo);
    assert_eq!(channel_layout(0), ChannelLayout::Stereo);
    assert_eq!(channel_layout(6), ChannelLayout::Stereo);
}

#[test]
fn stream_params_are_checked() {
    for rate in [8000u32, 12000, 16000, 24000, 48000] {
        assert!(StreamParams::new(rate, 1, 960, 960).is_some());
    }
    assert!(StreamParams::new(44100, 1, 960, 960).is_none());
    assert!(StreamParams::new(48000, 0, 960, 960).is_none());
    assert!(StreamParams::new(48000, 3, 960, 960).is_none());
    assert!(StreamParams::new(48000, 2, 961, 960).is_none());
    assert!(StreamParams::new(48000, 2, 960, 961).is_none());
    assert!(StreamParams::new(48000, 2, usize::MAX - 1, 960).is_none());
    let p = StreamParams::new(24000, 2, 480, 960).unwrap();
    assert_eq!(
        (p.sample_rate(), p.channels(), p.frame_samples(), p.block_samples()),
        (24000, 2, 480, 960)
    );
    assert_eq!(p.block_len(), 1920);
    assert_eq!(p.frame_len(), 960);
}

#[test]
fn default_stream_params() {
    let p: StreamParams = Settings::get_default_settings();
    assert_eq!(p, StreamParams::new(48000, 1, 960, 960).unwrap());
    assert_eq!((SAMPLE_RATE, CHANNELS, BUFFER_SIZE), (48000, 1, 960));
    assert_eq!((SERVER_PORT, CLIENT_PORT), (18521, 18522));
}

#[test]
fn clip_playback_moves_the_cursor() {
    let clip = [1.0f32, 2.0, 3.0, 4.0, 5.0];
    let mut out = [0.0f32; 2];
    let next = fill_from_clip(&mut out, &clip, 0, 0.0);
    assert_eq!((out, next), ([1.0, 2.0], 2));
    let next = fill_from_clip(&mut out, &clip, next, 0.0);
    assert_eq!((out, next), ([3.0, 4.0], 4));
    let next = fill_from_clip(&mut out, &clip, next, 0.0);
    assert_eq!((out, next), ([5.0, 0.0], 0));
}

#[test]
fn clip_playback_starts_over_at_the_end() {
    let clip = [1u8, 2, 3];
    let mut out = [9u8; 3];
    assert_eq!(fill_from_clip(&mut out, &clip, 0, 0), 0);
    assert_eq!(out, [1, 2, 3]);
    let mut out = [9u8; 2];
    assert_eq!(fill_from_clip(&mut out, &[], 0, 7), 0);
    assert_eq!(out, [7, 7]);
    assert_eq!(fill_from_clip(&mut out, &clip, 5, 7), 0);
    assert_eq!(out, [7, 7]);
    let mut none: [u8; 0] = [];
    assert_eq!(fill_from_clip(&mut none, &clip, 1, 0), 1);
}

#[test]
fn spread_channels_repeats_each_sample() {
    assert_eq!(spread_channels(&[1.0f32, 2.0, 3.0], 2), vec![1.0, 1.0, 2.0, 2.0, 3.0, 3.0]);
    assert_eq!(spread_channels(&[1u8, 2], 1), vec![1, 2]);
    assert!(spread_channels(&[1u8, 2], 0).is_empty());
    assert!(spread_channels::<u8>(&[], 3).is_empty());
}

#[test]
fn set_buffer_size_changes_the_buffer_size_only() {
    let mut settings = ApplicationSettings::for_device(2, SupportedBufferSize::Unknown);
    settings.set_buffer_size(512);
    assert_eq!(settings.get_buffer_size(), 512);
    assert_eq!(settings.get_channels(), 2);
    assert_eq!(settings.get_sample_rate(), 48000);
    assert_eq!(settings.create_stream_config().buffer_size, 512);
}
