//! The fixed parameters of a stream, and the settings drawn from an audio
//! device, as plain values.

use vstd::prelude::*;

verus! {

/// Settings with a default.
pub trait Settings: Sized {
    /// The settings to start from.
    fn get_default_settings() -> Self;
}

/// The buffer size asked of a device where it allows it.
pub const DEFAULT_BUFFER_SIZE: u32 = 960;

/// The sample rate of every stream.
pub const DEFAULT_SAMPLE_RATE: u32 = 48000;

/// The buffer sizes that a device supports.
#[derive(Clone, Copy, Debug, PartialEq, Eq, Structural)]
pub enum SupportedBufferSize {
    /// Every size from `min` to `max`.
    Range { min: u32, max: u32 },
    /// The device does not say.
    Unknown,
}

/// How the channels of a stream are laid out for the codec.
#[derive(Clone, Copy, Debug, PartialEq, Eq, Structural)]
pub enum ChannelLayout {
    Mono,
    Stereo,
}

/// The buffer size to use on a device: 960 where the device supports it or
/// does not say, else the largest size that it supports.
pub open spec fn chosen_buffer_size(supported: SupportedBufferSize) -> nat {
    match supported {
        SupportedBufferSize::Range { min, max } => if min <= 960 <= max {
            960
        } else {
            max as nat
        },
        SupportedBufferSize::Unknown => 960,
    }
}

/// Picks the buffer size to use on a device.
pub fn choose_buffer_size(supported: SupportedBufferSize) -> (size: u32)
    ensures
        size == chosen_buffer_size(supported),
{
    match supported {
        SupportedBufferSize::Range { min, max } => {
            if DEFAULT_BUFFER_SIZE >= min && DEFAULT_BUFFER_SIZE <= max {
                DEFAULT_BUFFER_SIZE
            } else {
                max
            }
        },
        SupportedBufferSize::Unknown => DEFAULT_BUFFER_SIZE,
    }
}

/// The codec's channel layout for a channel count: mono for one channel,
/// stereo for any other count.
pub fn channel_layout(channels: u16) -> (layout: ChannelLayout)
    ensures
        layout == (if channels == 1 {
            ChannelLayout::Mono
        } else {
            ChannelLayout::Stereo
        }),
{
    if channels == 1 {
        ChannelLayout::Mono
    } else {
        ChannelLayout::Stereo
    }
}

/// The configuration that a stream is opened with.
#[derive(Clone, Copy, Debug, PartialEq, Eq, Structural)]
pub struct StreamConfig {
    pub channels: u16,
    pub sample_rate: u32,
    pub buffer_size: u32,
}

/// The settings drawn from the default output device.
#[derive(Clone, Copy, Debug, PartialEq, Eq, Structural)]
pub struct ApplicationSettings {
    sample_rate: u32,
    channels: u16,
    buffer_size: u32,
}

impl ApplicationSettings {
    /// The settings for a device with `channels` channels that supports the
    /// buffer sizes `supported`: 48 kHz, the device's channels, and the
    /// chosen buffer size.
    pub fn for_device(channels: u16, supported: SupportedBufferSize) -> (settings:
        ApplicationSettings)
        ensures
            settings.spec_sample_rate() == DEFAULT_SAMPLE_RATE,
            settings.spec_channels() == channels,
            settings.spec_buffer_size() == chosen_buffer_size(supported),
    {
        ApplicationSettings {
            sample_rate: DEFAULT_SAMPLE_RATE,
            channels,
            buffer_size: choose_buffer_size(supported),
        }
    }

    /// The sample rate in hertz.
    pub closed spec fn spec_sample_rate(&self) -> u32 {
        self.sample_rate
    }

    /// The number of channels.
    pub closed spec fn spec_channels(&self) -> u16 {
        self.channels
    }

    /// The buffer size in samples.
    pub closed spec fn spec_buffer_size(&self) -> u32 {
        self.buffer_size
    }

    /// Sets the buffer size and leaves the rest as it is.
    pub fn set_buffer_size(&mut self, buffer_size: u32)
        ensures
            final(self).spec_buffer_size() == buffer_size,
            final(self).spec_sample_rate() == old(self).spec_sample_rate(),
            final(self).spec_channels() == old(self).spec_channels(),
    {
        self.buffer_size = buffer_size;
    }

    /// The buffer size in samples.
    pub fn get_buffer_size(&self) -> (size: usize)
        ensures
            size == self.spec_buffer_size(),
    {
        self.buffer_size as usize
    }

    /// The sample rate in hertz.
    pub fn get_sample_rate(&self) -> (rate: u32)
        ensures
            rate == self.spec_sample_rate(),
    {
        self.sample_rate
    }

    /// The number of channels.
    pub fn get_channels(&self) -> (channels: u16)
        ensures
            channels == self.spec_channels(),
    {
        self.channels
    }

    /// The configuration to open a stream with: these channels, this sample
    /// rate, and this buffer size as a fixed size.
    pub fn create_stream_config(&self) -> (config: StreamConfig)
        ensures
            config == (StreamConfig {
                channels: self.spec_channels(),
                sample_rate: self.spec_sample_rate(),
                buffer_size: self.spec_buffer_size(),
            }),
    {
        StreamConfig {
            channels: self.channels,
            sample_rate: self.sample_rate,
            buffer_size: self.buffer_size,
        }
    }
}

/// The fixed parameters of a stream.
#[derive(Clone, Copy, Debug, PartialEq, Eq, Structural)]
pub struct StreamParams {
    sample_rate: u32,
    channels: u16,
    frame_samples: usize,
    block_samples: usize,
}

/// Whether the codec takes this sample rate.
pub open spec fn codec_rate(sample_rate: u32) -> bool {
    sample_rate == 8000 || sample_rate == 12000 || sample_rate == 16000 || sample_rate == 24000
        || sample_rate == 48000
}

/// Whether these are the parameters of a stream: a sample rate that the
/// codec takes, one or two channels, frame and block sizes that are
/// multiples of the channel count, and products of a size with the channel
/// count that fit the machine.
pub open spec fn valid_params(
    sample_rate: u32,
    channels: u16,
    frame_samples: usize,
    block_samples: usize,
) -> bool {
    &&& codec_rate(sample_rate)
    &&& (channels == 1 || channels == 2)
    &&& frame_samples as int % channels as int == 0
    &&& block_samples as int % channels as int == 0
    &&& frame_samples * channels <= usize::MAX
    &&& block_samples * channels <= usize::MAX
}

impl StreamParams {
    /// Whether the invariant of the parameters holds.
    pub closed spec fn wf(&self) -> bool {
        valid_params(self.sample_rate, self.channels, self.frame_samples, self.block_samples)
    }

    /// The sample rate in hertz.
    pub closed spec fn spec_sample_rate(&self) -> u32 {
        self.sample_rate
    }

    /// The number of channels.
    pub closed spec fn spec_channels(&self) -> u16 {
        self.channels
    }

    /// Samples per coded frame.
    pub closed spec fn spec_frame_samples(&self) -> usize {
        self.frame_samples
    }

    /// Samples per playout block.
    pub closed spec fn spec_block_samples(&self) -> usize {
        self.block_samples
    }

    /// The parameters of a stream, where they are valid.
    pub fn new(
        sample_rate: u32,
        channels: u16,
        frame_samples: usize,
        block_samples: usize,
    ) -> (params: Option<StreamParams>)
        ensures
            params is Some <==> valid_params(sample_rate, channels, frame_samples, block_samples),
            params is Some ==> {
                &&& params->0.wf()
                &&& params->0.spec_sample_rate() == sample_rate
                &&& params->0.spec_channels() == channels
                &&& params->0.spec_frame_samples() == frame_samples
                &&& params->0.spec_block_samples() == block_samples
            },
    {
        let rate_ok = sample_rate == 8000 || sample_rate == 12000 || sample_rate == 16000
            || sample_rate == 24000 || sample_rate == 48000;
        if !rate_ok || (channels != 1 && channels != 2) {
            return None;
        }
        let width: usize = channels as usize;
        if frame_samples % width != 0 || block_samples % width != 0 {
            return None;
        }
        if frame_samples > usize::MAX / width || block_samples > usize::MAX / width {
            proof {
                assert(frame_samples * channels > usize::MAX || block_samples * channels
                    > usize::MAX) by (nonlinear_arith)
                    requires
                        frame_samples > usize::MAX / width || block_samples > usize::MAX / width,
                        width == channels,
                        width == 1 || width == 2,
                ;
            }
            return None;
        }
        proof {
            assert(frame_samples * channels <= usize::MAX && block_samples * channels
                <= usize::MAX) by (nonlinear_arith)
                requires
                    frame_samples <= usize::MAX / width,
                    block_samples <= usize::MAX / width,
                    width == channels,
                    width == 1 || width == 2,
            ;
        }
        Some(StreamParams { sample_rate, channels, frame_samples, block_samples })
    }

    /// The sample rate in hertz.
    pub fn sample_rate(&self) -> (rate: u32)
        ensures
            rate == self.spec_sample_rate(),
    {
        self.sample_rate
    }

    /// The number of channels.
    pub fn channels(&self) -> (channels: u16)
        ensures
            channels == self.spec_channels(),
    {
        self.channels
    }

    /// Samples per coded frame.
    pub fn frame_samples(&self) -> (samples: usize)
        ensures
            samples == self.spec_frame_samples(),
    {
        self.frame_samples
    }

    /// Samples per playout block.
    pub fn block_samples(&self) -> (samples: usize)
        ensures
            samples == self.spec_block_samples(),
    {
        self.block_samples
    }

    /// The length of a playout block: block samples times channels.
    pub fn block_len(&self) -> (len: usize)
        requires
            self.wf(),
        ensures
            len == self.spec_block_samples() * self.spec_channels(),
    {
        self.block_samples * (self.channels as usize)
    }

    /// The length of a decoded frame: frame samples times channels.
    pub fn frame_len(&self) -> (len: usize)
        requires
            self.wf(),
        ensures
            len == self.spec_frame_samples() * self.spec_channels(),
    {
        self.frame_samples * (self.channels as usize)
    }
}

impl Settings for StreamParams {
    /// 48 kHz, mono, frames and blocks of 960 samples.
    fn get_default_settings() -> (params: StreamParams)
        ensures
            params.wf(),
            params.spec_sample_rate() == 48000,
            params.spec_channels() == 1,
            params.spec_frame_samples() == 960,
            params.spec_block_samples() == 960,
    {
        StreamParams { sample_rate: 48000, channels: 1, frame_samples: 960, block_samples: 960 }
    }
}

} // verus!
