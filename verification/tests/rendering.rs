use wgtui::model::{WgInterface, WgPeer};
use wgtui::registry::InterfacesMap;

fn sample_peer() -> WgPeer {
    WgPeer {
        public_key: "PEERKEY".to_string(),
        preshared_key: None,
        endpoint: "203.0.113.5:51820".to_string(),
        allowed_ips: "10.0.0.2/32".to_string(),
        latest_handshake: 100,
        transfer_rx: 1024,
        transfer_tx: 2048,
        persistent_keepalive: false,
    }
}

fn sample_interface() -> WgInterface {
    WgInterface {
        enabled: true,
        private_key: "TOPSECRET".to_string(),
        public_key: "PUBKEY".to_string(),
        listen_port: 51820,
        fwmark: None,
        peers: vec![sample_peer()],
        show_priv: false,
    }
}

#[test]
fn down_interface_renders_the_fixed_message() {
    // Stale fields must not leak: the record carries junk on purpose.
    let iface = WgInterface {
        enabled: false,
        private_key: "STALEKEY".to_string(),
        public_key: "STALEPUB".to_string(),
        listen_port: 7,
        fwmark: Some("0x1".to_string()),
        peers: vec![sample_peer()],
        show_priv: true,
    };
    assert_eq!(iface.render(true, 1000), "Interface is down.");
    assert_eq!(iface.render(false, 1000), "Interface is down.");
}

#[test]
fn redacted_render_never_contains_the_private_key() {
    let iface = sample_interface();
    let text = iface.render(false, 160);
    assert!(!text.contains("TOPSECRET"));
    assert!(text.contains("Private Key: (hidden)\n"));
}

#[test]
fn revealed_render_contains_the_private_key() {
    let iface = sample_interface();
    let text = iface.render(true, 160);
    assert!(text.contains("Private Key: TOPSECRET\n"));
}

#[test]
fn enabled_interface_golden_output() {
    let iface = sample_interface();
    let text = iface.render(false, 160);
    let expected = "Private Key: (hidden)\n\
                    Public Key: PUBKEY\n\
                    Listen Port: 51820\n\
                    fwmark: off\n\
                    ----- Peers -----\n\
                    Public Key: PEERKEY\n\
                    Preshared Key: (none)\n\
                    Endpoint: 203.0.113.5:51820\n\
                    Allowed Ips: 10.0.0.2/32\n\
                    Latest handshake: 1 minute \n\
                    Transfer: 1024 B recieved, 2048 B sent\n\
                    Persistent Keepalive: false\n\
                    \n ";
    assert_eq!(text, expected);
}

#[test]
fn peer_render_reports_handshake_age() {
    let peer = sample_peer();
    let text = peer.render(3761);
    assert!(text.contains("Latest handshake: 1 hour 1 minute 1 second\n"));
    assert!(text.contains("Transfer: 1024 B recieved, 2048 B sent\n"));
}

#[test]
fn peer_render_shows_preshared_key_when_present() {
    let mut peer = sample_peer();
    peer.preshared_key = Some("SHAREDSECRET".to_string());
    peer.persistent_keepalive = true;
    let text = peer.render(100);
    assert!(text.contains("Preshared Key: SHAREDSECRET\n"));
    assert!(text.contains("Persistent Keepalive: true\n"));
    assert!(text.contains("Latest handshake: 0 seconds\n"));
}

#[test]
fn registry_render_honors_the_global_flag() {
    let mut reg = InterfacesMap::new();
    reg.refresh("wg0\tHUSHHUSH\tPUB0\t51820\toff\n", &Vec::new()).unwrap();
    let hidden = reg.render("wg0", 0);
    assert!(!hidden.contains("HUSHHUSH"));
    reg.toggle_secret_visibility();
    let shown = reg.render("wg0", 0);
    assert!(shown.contains("Private Key: HUSHHUSH\n"));
}

#[test]
fn fwmark_renders_verbatim_when_set() {
    let mut iface = sample_interface();
    iface.fwmark = Some("0xca6c".to_string());
    let text = iface.render(false, 160);
    assert!(text.contains("fwmark: 0xca6c\n"));
}

#[test]
fn toggle_privkey_flips_the_record_flag() {
    let mut iface = sample_interface();
    assert!(!iface.show_priv);
    iface.toggle_privkey();
    assert!(iface.show_priv);
    iface.toggle_privkey();
    assert!(!iface.show_priv);
}
