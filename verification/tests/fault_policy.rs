use audio_sync::errors::{Fault, Response};
use audio_sync::wire::ParseError;

const ALL: [Fault; 10] = [
    Fault::DeviceUnavailable,
    Fault::TransportBind,
    Fault::TransportSendPartial,
    Fault::MalformedDatagram,
    Fault::TruncatedDatagram,
    Fault::BadMagic,
    Fault::CodecInit,
    Fault::DecodeFail,
    Fault::BufferUnderrun,
    Fault::PeerTableStale,
];

#[test]
fn only_startup_faults_are_fatal() {
    let fatal: Vec<Fault> = ALL.iter().copied().filter(|f| f.is_fatal()).collect();
    assert_eq!(fatal, vec![Fault::DeviceUnavailable, Fault::TransportBind, Fault::CodecInit]);
}

#[test]
fn every_fault_has_its_response() {
    let responses: Vec<Response> = ALL.iter().map(|f| f.response()).collect();
    assert_eq!(
        responses,
        vec![
            Response::Abort,
            Response::Abort,
            Response::SkipPeer,
            Response::DiscardDatagram,
            Response::DiscardDatagram,
            Response::DiscardDatagram,
            Response::Abort,
            Response::Conceal,
            Response::Silence,
            Response::SkipPeer,
        ]
    );
}

#[test]
fn a_stale_peer_is_a_failed_send() {
    assert_eq!(Fault::PeerTableStale.response(), Fault::TransportSendPartial.response());
}

#[test]
fn parse_errors_map_to_faults() {
    assert_eq!(Fault::of_parse_error(ParseError::MalformedDatagram), Fault::MalformedDatagram);
    assert_eq!(Fault::of_parse_error(ParseError::TruncatedDatagram), Fault::TruncatedDatagram);
    assert_eq!(Fault::of_parse_error(ParseError::BadMagic), Fault::BadMagic);
}

#[test]
fn faults_are_named() {
    let names: Vec<&str> = ALL.iter().map(|f| f.name()).collect();
    assert_eq!(
        names,
        vec![
            "DeviceUnavailable",
            "TransportBind",
            "TransportSendPartial",
            "MalformedDatagram",
            "TruncatedDatagram",
            "BadMagic",
            "CodecInit",
            "DecodeFail",
            "BufferUnderrun",
            "PeerTableStale",
        ]
    );
}
