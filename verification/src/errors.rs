//! What can go wrong in the endpoint, and which faults end it.

use crate::wire::ParseError;
use vstd::prelude::*;

verus! {

/// A fault of the endpoint.
#[derive(Clone, Copy, Debug, PartialEq, Eq, Structural)]
pub enum Fault {
    /// The host has no input or no output device.
    DeviceUnavailable,
    /// A socket could not be bound.
    TransportBind,
    /// A datagram could not be sent to one peer.
    TransportSendPartial,
    /// A received datagram declares less payload than it carries.
    MalformedDatagram,
    /// A received datagram ends too early.
    TruncatedDatagram,
    /// A received datagram has a wrong marker.
    BadMagic,
    /// The codec could not be set up.
    CodecInit,
    /// One frame could not be decoded.
    DecodeFail,
    /// The playback callback found too few samples.
    BufferUnderrun,
    /// A datagram went to a peer that is gone.
    PeerTableStale,
}

/// What the component that meets a fault does about it.
#[derive(Clone, Copy, Debug, PartialEq, Eq, Structural)]
pub enum Response {
    /// Report to the user and end the process.
    Abort,
    /// Drop the datagram and go on.
    DiscardDatagram,
    /// Log, and go on with the other peers.
    SkipPeer,
    /// Put concealment in place of the frame.
    Conceal,
    /// Put silence in place of the samples.
    Silence,
}

/// How a fault is treated: a send to a peer that is gone is a failed send.
pub open spec fn treated_as(fault: Fault) -> Fault {
    if fault == Fault::PeerTableStale {
        Fault::TransportSendPartial
    } else {
        fault
    }
}

/// The response that a fault calls for.
pub open spec fn response_for(fault: Fault) -> Response {
    match treated_as(fault) {
        Fault::DeviceUnavailable | Fault::TransportBind | Fault::CodecInit => Response::Abort,
        Fault::MalformedDatagram | Fault::TruncatedDatagram | Fault::BadMagic => {
            Response::DiscardDatagram
        },
        Fault::DecodeFail => Response::Conceal,
        Fault::BufferUnderrun => Response::Silence,
        _ => Response::SkipPeer,
    }
}

/// Whether a fault ends the process: only the faults of startup do.
pub open spec fn fatal(fault: Fault) -> bool {
    response_for(fault) == Response::Abort
}

impl Fault {
    /// The fault that a discarded datagram stands for.
    pub fn of_parse_error(error: ParseError) -> (fault: Fault)
        ensures
            fault == (match error {
                ParseError::MalformedDatagram => Fault::MalformedDatagram,
                ParseError::TruncatedDatagram => Fault::TruncatedDatagram,
                ParseError::BadMagic => Fault::BadMagic,
            }),
            response_for(fault) == Response::DiscardDatagram,
    {
        match error {
            ParseError::MalformedDatagram => Fault::MalformedDatagram,
            ParseError::TruncatedDatagram => Fault::TruncatedDatagram,
            ParseError::BadMagic => Fault::BadMagic,
        }
    }

    /// The response that this fault calls for.
    pub fn response(&self) -> (response: Response)
        ensures
            response == response_for(*self),
    {
        match self {
            Fault::DeviceUnavailable => Response::Abort,
            Fault::TransportBind => Response::Abort,
            Fault::CodecInit => Response::Abort,
            Fault::MalformedDatagram => Response::DiscardDatagram,
            Fault::TruncatedDatagram => Response::DiscardDatagram,
            Fault::BadMagic => Response::DiscardDatagram,
            Fault::DecodeFail => Response::Conceal,
            Fault::BufferUnderrun => Response::Silence,
            Fault::TransportSendPartial => Response::SkipPeer,
            Fault::PeerTableStale => Response::SkipPeer,
        }
    }

    /// Whether this fault ends the process.
    pub fn is_fatal(&self) -> (ends: bool)
        ensures
            ends == fatal(*self),
            ends <==> *self == Fault::DeviceUnavailable || *self == Fault::TransportBind || *self
                == Fault::CodecInit,
    {
        match self {
            Fault::DeviceUnavailable => true,
            Fault::TransportBind => true,
            Fault::CodecInit => true,
            _ => false,
        }
    }

    /// The name of this fault.
    pub fn name(&self) -> (name: &'static str)
        ensures
            name@ == (match *self {
                Fault::DeviceUnavailable => "DeviceUnavailable"@,
                Fault::TransportBind => "TransportBind"@,
                Fault::TransportSendPartial => "TransportSendPartial"@,
                Fault::MalformedDatagram => "MalformedDatagram"@,
                Fault::TruncatedDatagram => "TruncatedDatagram"@,
                Fault::BadMagic => "BadMagic"@,
                Fault::CodecInit => "CodecInit"@,
                Fault::DecodeFail => "DecodeFail"@,
                Fault::BufferUnderrun => "BufferUnderrun"@,
                Fault::PeerTableStale => "PeerTableStale"@,
            }),
    {
        match self {
            Fault::DeviceUnavailable => "DeviceUnavailable",
            Fault::TransportBind => "TransportBind",
            Fault::TransportSendPartial => "TransportSendPartial",
            Fault::MalformedDatagram => "MalformedDatagram",
            Fault::TruncatedDatagram => "TruncatedDatagram",
            Fault::BadMagic => "BadMagic",
            Fault::CodecInit => "CodecInit",
            Fault::DecodeFail => "DecodeFail",
            Fault::BufferUnderrun => "BufferUnderrun",
            Fault::PeerTableStale => "PeerTableStale",
        }
    }
}

} // verus!
