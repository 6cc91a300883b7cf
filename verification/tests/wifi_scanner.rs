use sunburn::wifi_scanner::{
    dedup_by_ssid, parse_netsh_output, parse_nmcli_output, parse_preferred_networks_output,
    parse_wifi_interface_from_hardware_ports, WifiNetwork,
};

// ── macOS preferred-networks parsing ─────────────────────────────────────

#[test]
fn preferred_networks_parses_list() {
    let input = "Preferred networks on en0:\n\tHomeNetwork\n\tOpenCafe\n\tOffice5G\n";
    let nets = parse_preferred_networks_output(input).unwrap();
    assert_eq!(nets.len(), 3);
    assert_eq!(nets[0].ssid, "HomeNetwork");
    assert_eq!(nets[1].ssid, "OpenCafe");
    assert_eq!(nets[2].ssid, "Office5G");
    // Signal is 0 (RSSI unavailable without Location)
    assert_eq!(nets[0].signal_strength, 0);
}

#[test]
fn preferred_networks_empty_returns_empty() {
    let nets = parse_preferred_networks_output("").unwrap();
    assert!(nets.is_empty());
}

#[test]
fn preferred_networks_skips_empty_lines() {
    let input = "Preferred networks on en0:\n\tMyNet\n\n\tOtherNet\n";
    let nets = parse_preferred_networks_output(input).unwrap();
    assert_eq!(nets.len(), 2);
}

#[test]
fn hardware_ports_finds_wifi_interface() {
    let input = "Hardware Port: Ethernet\nDevice: en1\nEthernet Address: aa:bb:cc:dd:ee:ff\n\n\
Hardware Port: Wi-Fi\nDevice: en0\nEthernet Address: f4:d4:88:79:c9:d5\n\n\
Hardware Port: Bluetooth PAN\nDevice: en3\n";
    let iface = parse_wifi_interface_from_hardware_ports(input);
    assert_eq!(iface, Some("en0".to_string()));
}

#[test]
fn hardware_ports_airport_alias_works() {
    let input = "Hardware Port: AirPort\nDevice: en0\nEthernet Address: f4:d4:88:79:c9:d5\n";
    let iface = parse_wifi_interface_from_hardware_ports(input);
    assert_eq!(iface, Some("en0".to_string()));
}

#[test]
fn hardware_ports_no_wifi_returns_none() {
    let input = "Hardware Port: Ethernet\nDevice: en1\nEthernet Address: aa:bb:cc:dd:ee:ff\n";
    let iface = parse_wifi_interface_from_hardware_ports(input);
    assert!(iface.is_none());
}

// ── Linux nmcli parsing ───────────────────────────────────────────────────

#[test]
fn nmcli_parses_secured_and_open() {
    let input = "HomeNetwork:85:WPA2\nOpenCafe:60:--\n";
    let nets = parse_nmcli_output(input).unwrap();
    assert_eq!(nets.len(), 2);

    let home = nets.iter().find(|n| n.ssid == "HomeNetwork").unwrap();
    // signal 85 → 85/2 - 100 = -58
    assert_eq!(home.signal_strength, 85 / 2 - 100);
    assert!(home.secured);

    let cafe = nets.iter().find(|n| n.ssid == "OpenCafe").unwrap();
    assert!(!cafe.secured);
}

#[test]
fn nmcli_empty_ssid_skipped() {
    let input = ":50:WPA2\nRealNet:70:WPA2\n";
    let nets = parse_nmcli_output(input).unwrap();
    assert_eq!(nets.len(), 1);
    assert_eq!(nets[0].ssid, "RealNet");
}

#[test]
fn nmcli_ssid_with_colon_unescaped() {
    // nmcli escapes ':' in SSIDs as '\:'
    let input = "My\\:Net:80:WPA2\n";
    let nets = parse_nmcli_output(input).unwrap();
    assert_eq!(nets[0].ssid, "My:Net");
}

// ── Windows netsh parsing ─────────────────────────────────────────────────

#[test]
fn netsh_parses_secured_and_open() {
    let input = "\
SSID 1                 : HomeNetwork\r\n\
Authentication         : WPA2-Personal\r\n\
Signal                 : 85%\r\n\
\r\n\
SSID 2                 : OpenCafe\r\n\
Authentication         : Open\r\n\
Signal                 : 60%\r\n";

    let nets = parse_netsh_output(input).unwrap();
    assert_eq!(nets.len(), 2);

    let home = nets.iter().find(|n| n.ssid == "HomeNetwork").unwrap();
    // 85% → 85/2-100 = -58
    assert_eq!(home.signal_strength, 85 / 2 - 100);
    assert!(home.secured);

    let cafe = nets.iter().find(|n| n.ssid == "OpenCafe").unwrap();
    assert!(!cafe.secured);
}

#[test]
fn netsh_empty_input_returns_empty() {
    let nets = parse_netsh_output("").unwrap();
    assert!(nets.is_empty());
}

// ── dedup_by_ssid ─────────────────────────────────────────────────────────

#[test]
fn dedup_keeps_stronger_signal() {
    let mut nets = vec![
        WifiNetwork { ssid: "Home".into(), signal_strength: -70, secured: true,  frequency_ghz: None },
        WifiNetwork { ssid: "Home".into(), signal_strength: -45, secured: true,  frequency_ghz: None },
        WifiNetwork { ssid: "Home".into(), signal_strength: -60, secured: false, frequency_ghz: None },
    ];
    dedup_by_ssid(&mut nets);
    assert_eq!(nets.len(), 1);
    assert_eq!(nets[0].ssid, "Home");
    assert_eq!(nets[0].signal_strength, -45);
}

#[test]
fn dedup_preserves_distinct_ssids() {
    let mut nets = vec![
        WifiNetwork { ssid: "Net1".into(), signal_strength: -50, secured: true,  frequency_ghz: None },
        WifiNetwork { ssid: "Net2".into(), signal_strength: -60, secured: false, frequency_ghz: None },
    ];
    dedup_by_ssid(&mut nets);
    assert_eq!(nets.len(), 2);
}

#[test]
fn dedup_sorts_by_signal_descending() {
    let mut nets = vec![
        WifiNetwork { ssid: "Weak".into(),   signal_strength: -80, secured: false, frequency_ghz: None },
        WifiNetwork { ssid: "Strong".into(), signal_strength: -30, secured: true,  frequency_ghz: None },
        WifiNetwork { ssid: "Mid".into(),    signal_strength: -55, secured: true,  frequency_ghz: None },
    ];
    dedup_by_ssid(&mut nets);
    assert_eq!(nets[0].ssid, "Strong");
    assert_eq!(nets[1].ssid, "Mid");
    assert_eq!(nets[2].ssid, "Weak");
}

#[test]
fn dedup_empty_input_stays_empty() {
    let mut nets: Vec<WifiNetwork> = Vec::new();
    dedup_by_ssid(&mut nets);
    assert!(nets.is_empty());
}
