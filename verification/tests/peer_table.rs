use audio_sync::peers::{display_name, local_host_name, server_endpoint, PeerTable};

fn s(text: &str) -> String {
    text.to_string()
}

#[test]
fn insert_adds_and_replaces() {
    let mut table = PeerTable::new();
    assert_eq!(table.len(), 0);
    assert_eq!(table.insert(s("alice._udp_voice._udp.local."), s("10.0.0.1")), None);
    assert_eq!(table.insert(s("bob._udp_voice._udp.local."), s("10.0.0.2")), None);
    assert_eq!(table.len(), 2);
    assert_eq!(
        table.insert(s("alice._udp_voice._udp.local."), s("10.0.0.9")),
        Some(s("10.0.0.1"))
    );
    assert_eq!(table.len(), 2);
    assert_eq!(table.get(&s("alice._udp_voice._udp.local.")), Some(s("10.0.0.9")));
    assert_eq!(table.get(&s("bob._udp_voice._udp.local.")), Some(s("10.0.0.2")));
    assert_eq!(table.get(&s("carol")), None);
    let snapshot = table.snapshot();
    assert_eq!(snapshot[0].identifier, "alice._udp_voice._udp.local.");
    assert_eq!(snapshot[0].address, "10.0.0.9");
    assert_eq!(snapshot[1].address, "10.0.0.2");
}

#[test]
fn peer_removal_leaves_the_others() {
    let mut table = PeerTable::new();
    table.insert(s("a"), s("10.0.0.1"));
    table.insert(s("b"), s("10.0.0.2"));
    table.insert(s("c"), s("10.0.0.3"));
    let before = table.snapshot();
    assert_eq!(table.remove(&s("b")), Some(s("10.0.0.2")));
    assert_eq!(table.remove(&s("b")), None);
    let after = table.snapshot();
    // the snapshot taken earlier is not touched
    assert_eq!(before.len(), 3);
    let left: Vec<(&str, &str)> =
        after.iter().map(|p| (p.identifier.as_str(), p.address.as_str())).collect();
    assert_eq!(left, vec![("a", "10.0.0.1"), ("c", "10.0.0.3")]);
    assert_eq!(table.get(&s("b")), None);
}

#[test]
fn the_last_resolved_address_stays() {
    let mut table = PeerTable::new();
    table.insert(s("other"), s("10.0.0.7"));
    table.record_resolved(&s("peer"), &vec![s("10.0.0.1"), s("10.0.0.2"), s("10.0.0.3")]);
    assert_eq!(table.len(), 2);
    assert_eq!(table.get(&s("peer")), Some(s("10.0.0.3")));
    table.record_resolved(&s("peer"), &vec![]);
    assert_eq!(table.get(&s("peer")), Some(s("10.0.0.3")));
    table.record_resolved(&s("other"), &vec![s("10.0.0.8")]);
    assert_eq!(table.snapshot()[0].address, "10.0.0.8");
    assert_eq!(table.len(), 2);
}

#[test]
fn display_name_stops_at_the_first_full_stop() {
    assert_eq!(display_name("alice._udp_voice._udp.local."), "alice");
    assert_eq!(display_name("alice"), "alice");
    assert_eq!(display_name(".hidden"), "");
    assert_eq!(display_name(""), "");
    assert_eq!(display_name("zoë.local"), "zoë");
}

#[test]
fn duplicate_copies_a_peer() {
    let mut table = PeerTable::new();
    table.insert(s("a"), s("10.0.0.1"));
    let copy = table.snapshot()[0].duplicate();
    assert_eq!(copy.identifier, "a");
    assert_eq!(copy.address, "10.0.0.1");
}

#[test]
fn names_and_endpoints() {
    assert_eq!(local_host_name("studio"), "studio.local.");
    assert_eq!(server_endpoint("192.168.1.20"), "192.168.1.20:18521");
}

#[test]
fn a_round_goes_to_every_peer_on_record() {
    let mut table = PeerTable::new();
    assert!(table.endpoints().is_empty());
    table.insert(s("a"), s("10.0.0.1"));
    table.insert(s("b"), s("10.0.0.2"));
    table.insert(s("c"), s("10.0.0.3"));
    assert_eq!(table.endpoints(), vec!["10.0.0.1:18521", "10.0.0.2:18521", "10.0.0.3:18521"]);
    table.remove(&s("b"));
    assert_eq!(table.endpoints(), vec!["10.0.0.1:18521", "10.0.0.3:18521"]);
}
