use wgtui::parse::parse_dump;

fn peer_line(iface: &str, key: &str, handshake: u64) -> String {
    format!(
        "{}\t{}\t(none)\t203.0.113.5:51820\t10.0.0.2/32\t{}\t1024\t2048\toff\n",
        iface, key, handshake
    )
}

#[test]
fn round_trip_two_interfaces() {
    let mut dump = String::new();
    dump.push_str("wg0\tPRIV0\tPUB0\t51820\toff\n");
    dump.push_str(&peer_line("wg0", "PEERA", 100));
    dump.push_str(&peer_line("wg0", "PEERB", 200));
    dump.push_str(&peer_line("wg0", "PEERC", 300));
    dump.push_str("wg1\tPRIV1\tPUB1\t51821\toff\n");

    let parsed = parse_dump(&dump).unwrap();
    assert_eq!(parsed.len(), 2);
    assert_eq!(parsed[0].0, "wg0");
    assert_eq!(parsed[0].1.peers.len(), 3);
    assert_eq!(parsed[0].1.peers[0].public_key, "PEERA");
    assert_eq!(parsed[0].1.peers[1].public_key, "PEERB");
    assert_eq!(parsed[0].1.peers[2].public_key, "PEERC");
    assert_eq!(parsed[1].0, "wg1");
    assert_eq!(parsed[1].1.peers.len(), 0);
}

#[test]
fn peers_do_not_leak_across_interfaces() {
    let mut dump = String::new();
    dump.push_str("wg0\tPRIV0\tPUB0\t51820\toff\n");
    dump.push_str(&peer_line("wg0", "PEER0", 100));
    dump.push_str("wg1\tPRIV1\tPUB1\t51821\toff\n");
    dump.push_str(&peer_line("wg1", "PEER1", 200));

    let parsed = parse_dump(&dump).unwrap();
    assert_eq!(parsed.len(), 2);
    assert_eq!(parsed[0].1.peers.len(), 1);
    assert_eq!(parsed[0].1.peers[0].public_key, "PEER0");
    assert_eq!(parsed[1].1.peers.len(), 1);
    assert_eq!(parsed[1].1.peers[0].public_key, "PEER1");
}

#[test]
fn interface_fields_are_kept() {
    let dump = "wg0\tPRIVKEY\tPUBKEY\t51820\t0xca6c\n";
    let parsed = parse_dump(dump).unwrap();
    assert_eq!(parsed.len(), 1);
    let iface = &parsed[0].1;
    assert!(iface.enabled);
    assert_eq!(iface.private_key, "PRIVKEY");
    assert_eq!(iface.public_key, "PUBKEY");
    assert_eq!(iface.listen_port, 51820);
    assert_eq!(iface.fwmark.as_deref(), Some("0xca6c"));
    assert!(!iface.show_priv);
}

#[test]
fn fwmark_off_is_absent() {
    let dump = "wg0\tPRIV\tPUB\t51820\toff\n";
    let parsed = parse_dump(dump).unwrap();
    assert_eq!(parsed[0].1.fwmark, None);
}

#[test]
fn peer_fields_are_kept() {
    let mut dump = String::new();
    dump.push_str("wg0\tPRIV\tPUB\t51820\toff\n");
    dump.push_str("wg0\tPEER\tPSK\t198.51.100.7:4242\t10.0.0.3/32, 10.0.0.4/32\t1700000000\t10\t20\ton\n");
    let parsed = parse_dump(&dump).unwrap();
    let peer = &parsed[0].1.peers[0];
    assert_eq!(peer.public_key, "PEER");
    assert_eq!(peer.preshared_key.as_deref(), Some("PSK"));
    assert_eq!(peer.endpoint, "198.51.100.7:4242");
    assert_eq!(peer.allowed_ips, "10.0.0.3/32, 10.0.0.4/32");
    assert_eq!(peer.latest_handshake, 1700000000);
    assert_eq!(peer.transfer_rx, 10);
    assert_eq!(peer.transfer_tx, 20);
    assert!(peer.persistent_keepalive);
}

#[test]
fn preshared_none_sentinel() {
    let mut dump = String::new();
    dump.push_str("wg0\tPRIV\tPUB\t51820\toff\n");
    dump.push_str(&peer_line("wg0", "PEER", 0));
    let parsed = parse_dump(&dump).unwrap();
    assert_eq!(parsed[0].1.peers[0].preshared_key, None);
    assert!(!parsed[0].1.peers[0].persistent_keepalive);
}

#[test]
fn empty_dump_yields_no_interfaces() {
    let parsed = parse_dump("").unwrap();
    assert_eq!(parsed.len(), 0);
}

#[test]
fn non_numeric_listen_port_is_an_error() {
    let dump = "wg0\tPRIV\tPUB\tabc\toff\n";
    assert!(parse_dump(dump).is_err());
}

#[test]
fn oversized_listen_port_is_an_error() {
    let dump = "wg0\tPRIV\tPUB\t65536\toff\n";
    assert!(parse_dump(dump).is_err());
}

#[test]
fn non_numeric_handshake_is_an_error() {
    let dump = "wg0\tPRIV\tPUB\t51820\toff\nwg0\tPEER\t(none)\t:0\t10.0.0.2/32\tnever\t0\t0\toff\n";
    assert!(parse_dump(dump).is_err());
}

#[test]
fn unknown_keepalive_sentinel_is_an_error() {
    let dump =
        "wg0\tPRIV\tPUB\t51820\toff\nwg0\tPEER\t(none)\t:0\t10.0.0.2/32\t0\t0\t0\tmaybe\n";
    assert!(parse_dump(dump).is_err());
}

#[test]
fn short_peer_line_is_an_error() {
    let dump = "wg0\tPRIV\tPUB\t51820\toff\nwg0\tPEER\t(none)\t:0\n";
    assert!(parse_dump(dump).is_err());
}

#[test]
fn last_line_without_trailing_newline_is_discarded() {
    // The external tool always terminates its output with a newline; the
    // piece after the final separator is discarded as an artifact.
    let dump = "wg0\tPRIV\tPUB\t51820\toff";
    let parsed = parse_dump(dump).unwrap();
    assert_eq!(parsed.len(), 0);
}

#[test]
fn port_beyond_u64_is_an_error() {
    let dump = "wg0\tPRIV\tPUB\t99999999999999999999999\toff\n";
    assert!(parse_dump(dump).is_err());
}

#[test]
fn duplicate_adjacent_header_is_an_error() {
    // A second header with the same name lands inside the first header's
    // peer run and is too short to be a peer line.
    let dump = "wg0\tPRIV\tPUB\t51820\toff\nwg0\tPRIV\tPUB\t51820\toff\n";
    assert!(parse_dump(dump).is_err());
}

#[test]
fn stray_peer_line_is_dropped() {
    // A peer line whose name matches no preceding header is not consumed.
    let mut dump = String::new();
    dump.push_str(&peer_line("wg9", "GHOST", 1));
    dump.push_str("wg0\tPRIV\tPUB\t51820\toff\n");
    let parsed = parse_dump(&dump).unwrap();
    assert_eq!(parsed.len(), 1);
    assert_eq!(parsed[0].0, "wg0");
    assert_eq!(parsed[0].1.peers.len(), 0);
}
