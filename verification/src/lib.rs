//! Receive- and send-side logic of a peer-to-peer voice endpoint for a local
//! network: the datagram format, the reordering jitter buffer, the block
//! accumulator behind the decoder, the bounded delay buffer drained by the
//! playback callback, the packetizer, the peer table and the command state
//! machine.  Devices, sockets, threads and the codec stay with the caller.

pub mod config;
pub mod control;
pub mod decoder;
pub mod delay;
pub mod errors;
pub mod jitter;
pub mod orchestrator;
mod ordered;
pub mod packetizer;
pub mod peers;
pub mod playback;
pub mod receiver;
pub mod settings;
pub mod utils;
pub mod wire;
