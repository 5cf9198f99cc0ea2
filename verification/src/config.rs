//! The fixed parameters of the stream and of the transport.

use vstd::prelude::*;

verus! {

/// Samples per second.
pub const SAMPLE_RATE: u32 = 48000;

/// Channels of the stream.
pub const CHANNELS: u16 = 1;

/// Samples per coded frame and per playout block.
pub const BUFFER_SIZE: usize = 960;

/// The port that the receiving side listens on.
pub const SERVER_PORT: u16 = 18521;

/// The port that the sending side binds.
pub const CLIENT_PORT: u16 = 18522;

} // verus!
