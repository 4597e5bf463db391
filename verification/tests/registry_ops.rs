use wgtui::registry::InterfacesMap;

const DUMP_WG0: &str = "wg0\tPRIV0\tPUB0\t51820\toff\n";

fn confs(names: &[&str]) -> Vec<String> {
    names.iter().map(|n| n.to_string()).collect()
}

#[test]
fn new_registry_is_empty() {
    let reg = InterfacesMap::new();
    assert_eq!(reg.interfaces.len(), 0);
    assert_eq!(reg.current_interface, "");
    assert!(!reg.show_private);
}

#[test]
fn reconciler_adds_down_interfaces() {
    let mut reg = InterfacesMap::new();
    reg.refresh(DUMP_WG0, &confs(&["wg0.conf", "wg1.conf"])).unwrap();
    assert_eq!(reg.interfaces.len(), 2);
    let wg0 = reg.get("wg0").unwrap();
    assert!(wg0.enabled);
    assert_eq!(wg0.private_key, "PRIV0");
    let wg1 = reg.get("wg1").unwrap();
    assert!(!wg1.enabled);
    assert_eq!(wg1.private_key, "");
    assert_eq!(wg1.public_key, "");
    assert_eq!(wg1.listen_port, 0);
    assert_eq!(wg1.fwmark, None);
    assert_eq!(wg1.peers.len(), 0);
    assert!(!wg1.show_priv);
}

#[test]
fn reconciler_never_overwrites_a_live_interface() {
    let mut reg = InterfacesMap::new();
    reg.refresh(DUMP_WG0, &confs(&["wg0.conf"])).unwrap();
    assert_eq!(reg.interfaces.len(), 1);
    assert!(reg.get("wg0").unwrap().enabled);
}

#[test]
fn files_without_the_suffix_are_ignored() {
    let mut reg = InterfacesMap::new();
    reg.refresh("", &confs(&["notes.txt", "wg1.conf", "wg2.conf.bak"])).unwrap();
    assert_eq!(reg.interfaces.len(), 1);
    assert!(reg.get("wg1").is_some());
    assert!(reg.get("notes").is_none());
    assert!(reg.get("wg2").is_none());
}

#[test]
fn names_are_listed_in_sorted_order() {
    let mut reg = InterfacesMap::new();
    let dump = "wg2\tP2\tU2\t2\toff\nwg0\tP0\tU0\t1\toff\n";
    reg.refresh(dump, &confs(&["wg1.conf"])).unwrap();
    assert_eq!(reg.names(), vec!["wg0", "wg1", "wg2"]);
}

#[test]
fn refresh_replaces_prior_state() {
    let mut reg = InterfacesMap::new();
    reg.refresh(DUMP_WG0, &confs(&[])).unwrap();
    assert!(reg.get("wg0").is_some());
    reg.refresh("wg3\tP3\tU3\t3\toff\n", &confs(&[])).unwrap();
    assert!(reg.get("wg0").is_none());
    assert!(reg.get("wg3").is_some());
}

#[test]
fn failed_refresh_keeps_the_stored_map() {
    let mut reg = InterfacesMap::new();
    reg.refresh(DUMP_WG0, &confs(&["wg1.conf"])).unwrap();
    let names_before = reg.names();
    let bad_dump = "wg9\tPRIV\tPUB\tnot_a_port\toff\n";
    assert!(reg.refresh(bad_dump, &confs(&[])).is_err());
    assert_eq!(reg.names(), names_before);
    assert!(reg.get("wg0").unwrap().enabled);
    assert!(reg.get("wg9").is_none());
}

#[test]
fn refresh_twice_renders_identically() {
    let mut reg1 = InterfacesMap::new();
    let mut dump = String::new();
    dump.push_str("wg0\tPRIV0\tPUB0\t51820\toff\n");
    dump.push_str("wg0\tPEER\t(none)\t203.0.113.5:51820\t10.0.0.2/32\t100\t1\t2\ton\n");
    let files = confs(&["wg0.conf", "wg1.conf"]);
    reg1.refresh(&dump, &files).unwrap();
    let first: Vec<String> = reg1.names().iter().map(|n| reg1.render(n, 500)).collect();
    reg1.refresh(&dump, &files).unwrap();
    let second: Vec<String> = reg1.names().iter().map(|n| reg1.render(n, 500)).collect();
    assert_eq!(first, second);
}

#[test]
fn toggle_secret_visibility_flips_only_the_flag() {
    let mut reg = InterfacesMap::new();
    reg.refresh(DUMP_WG0, &confs(&[])).unwrap();
    assert!(!reg.show_private);
    reg.toggle_secret_visibility();
    assert!(reg.show_private);
    reg.toggle_secret_visibility();
    assert!(!reg.show_private);
    assert_eq!(reg.names(), vec!["wg0"]);
}

#[test]
fn refresh_keeps_selection_and_flag() {
    let mut reg = InterfacesMap::new();
    reg.current_interface = "wg0".to_string();
    reg.toggle_secret_visibility();
    reg.refresh(DUMP_WG0, &confs(&[])).unwrap();
    assert_eq!(reg.current_interface, "wg0");
    assert!(reg.show_private);
}

#[test]
fn duplicate_header_names_keep_the_last() {
    let dump = "wg0\tOLD\tU0\t1\toff\nwg1\tP1\tU1\t2\toff\nwg0\tNEW\tU2\t3\toff\n";
    let mut reg = InterfacesMap::new();
    reg.refresh(dump, &confs(&[])).unwrap();
    assert_eq!(reg.interfaces.len(), 2);
    assert_eq!(reg.get("wg0").unwrap().private_key, "NEW");
}
