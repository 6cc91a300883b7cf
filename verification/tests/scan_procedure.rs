use std::io;

use sunburn::commands::named_networks;
use sunburn::wifi_scanner::{
    dedup_by_ssid, parse_iwlist_output, parse_nmcli_output, scan_networks, ScanAction, ScanEvent,
    ScanPlatform, ScanState, WifiError, WifiNetwork,
};

fn net(ssid: &str, signal: i32) -> WifiNetwork {
    WifiNetwork { ssid: ssid.to_string(), signal_strength: signal, secured: true, frequency_ghz: None }
}

fn ran(ok: bool, text: &str) -> ScanEvent {
    ScanEvent::ToolRan(Ok((ok, text.to_string())))
}

#[test]
fn iwlist_parses_cells() {
    let text = "wlan0     Scan completed :\n\
          Cell 01 - Address: AA:BB:CC:DD:EE:01\n\
                    Frequency:2.437 GHz (Channel 6)\n\
                    Quality=40/70  Signal level=-70 dBm\n\
                    Encryption key:on\n\
                    ESSID:\"HomeNet\"\n\
          Cell 02 - Address: AA:BB:CC:DD:EE:02\n\
                    Frequency:5.180 GHz\n\
                    Signal level=-55 dBm\n\
                    Encryption key:off\n\
                    ESSID:\"Cafe\"\n\
          Cell 03 - Address: AA:BB:CC:DD:EE:03\n\
                    ESSID:\"\"\n";
    let nets = parse_iwlist_output(text).unwrap();
    assert_eq!(nets.len(), 2);
    assert_eq!(nets[0].ssid, "HomeNet");
    assert_eq!(nets[0].signal_strength, -70);
    assert!(nets[0].secured);
    assert_eq!(nets[0].frequency_ghz.as_deref(), Some("2.437"));
    assert_eq!(nets[1].ssid, "Cafe");
    assert_eq!(nets[1].signal_strength, -55);
    // Every `Encryption key:` line holds "on" (in "Encryption" itself).
    assert!(nets[1].secured);
    assert_eq!(nets[1].frequency_ghz.as_deref(), Some("5.180"));
}

#[test]
fn iwlist_unreadable_signal_is_zero() {
    let nets = parse_iwlist_output("Cell 01\nESSID:\"X\"\nSignal level=weak\n").unwrap();
    assert_eq!(nets.len(), 1);
    assert_eq!(nets[0].signal_strength, 0);
}

#[test]
fn nmcli_percent_becomes_dbm() {
    let nets = parse_nmcli_output("A:0:WPA2\nB:100:\nC:x:--\nD:51:WPA1\n").unwrap();
    assert_eq!(nets.len(), 4);
    assert_eq!(nets[0].signal_strength, -100);
    assert_eq!(nets[1].signal_strength, -50);
    assert!(!nets[1].secured);
    assert_eq!(nets[2].signal_strength, -100);
    assert!(!nets[2].secured);
    assert_eq!(nets[3].signal_strength, -75);
    assert!(nets[3].secured);
}

#[test]
fn dedup_ties_keep_first_seen_order() {
    let mut v = vec![net("B", -50), net("A", -50), net("B", -50), net("C", -40)];
    dedup_by_ssid(&mut v);
    let names: Vec<&str> = v.iter().map(|n| n.ssid.as_str()).collect();
    assert_eq!(names, vec!["C", "B", "A"]);
}

#[test]
fn dedup_is_idempotent() {
    let mut v = vec![net("X", -80), net("Y", -20), net("X", -30), net("Z", -20)];
    dedup_by_ssid(&mut v);
    let once: Vec<(String, i32)> = v.iter().map(|n| (n.ssid.clone(), n.signal_strength)).collect();
    dedup_by_ssid(&mut v);
    let twice: Vec<(String, i32)> = v.iter().map(|n| (n.ssid.clone(), n.signal_strength)).collect();
    assert_eq!(once, twice);
    assert_eq!(once, vec![("Y".to_string(), -20), ("Z".to_string(), -20), ("X".to_string(), -30)]);
}

#[test]
fn scan_on_macos_lists_preferred_networks() {
    let p = ScanPlatform::MacOs;
    let (s, a) = scan_networks(p, ScanState::Start, ScanEvent::Begin);
    assert!(matches!(a, ScanAction::ListHardwarePorts));
    let (s, a) = scan_networks(p, s, ran(true, "Hardware Port: Wi-Fi\nDevice: en1\n"));
    assert!(matches!(a, ScanAction::ListPreferredNetworks(ref i) if i == "en1"));
    let (s, a) = scan_networks(p, s, ran(true, "Preferred networks on en1:\n\tHome\n\tHome\n\tWork\n"));
    assert!(matches!(s, ScanState::Done));
    match a {
        ScanAction::Finish(Ok(n)) => {
            assert_eq!(n.len(), 2);
            assert_eq!(n[0].ssid, "Home");
            assert_eq!(n[1].ssid, "Work");
        }
        _ => panic!("expected networks"),
    }
}

#[test]
fn scan_on_macos_defaults_to_en0() {
    let p = ScanPlatform::MacOs;
    let e = io::Error::new(io::ErrorKind::NotFound, "no networksetup");
    let (_, a) = scan_networks(p, ScanState::FindingInterface, ScanEvent::ToolRan(Err(e)));
    assert!(matches!(a, ScanAction::ListPreferredNetworks(ref i) if i == "en0"));
    let (_, a) = scan_networks(p, ScanState::FindingInterface, ran(true, "Hardware Port: Ethernet\nDevice: en1\n"));
    assert!(matches!(a, ScanAction::ListPreferredNetworks(ref i) if i == "en0"));
}

#[test]
fn scan_on_linux_falls_back_to_iwlist() {
    let p = ScanPlatform::Linux;
    let (s, a) = scan_networks(p, ScanState::Start, ScanEvent::Begin);
    assert!(matches!(a, ScanAction::RunNmcli));
    let (s, a) = scan_networks(p, s, ran(true, ""));
    assert!(matches!(a, ScanAction::RunIwlist));
    let (_, a) = scan_networks(p, s, ran(true, "Cell 01\nESSID:\"Net\"\nSignal level=-60 dBm\n"));
    match a {
        ScanAction::Finish(Ok(n)) => {
            assert_eq!(n.len(), 1);
            assert_eq!(n[0].ssid, "Net");
            assert_eq!(n[0].signal_strength, -60);
        }
        _ => panic!("expected networks"),
    }
    let (_, a) = scan_networks(p, ScanState::TryingNmcli, ran(false, "A:80:WPA2\n"));
    assert!(matches!(a, ScanAction::RunIwlist));
    let e = io::Error::new(io::ErrorKind::NotFound, "no nmcli");
    let (_, a) = scan_networks(p, ScanState::TryingNmcli, ScanEvent::ToolRan(Err(e)));
    assert!(matches!(a, ScanAction::RunIwlist));
}

#[test]
fn scan_on_linux_uses_nmcli_results() {
    let (s, a) = scan_networks(ScanPlatform::Linux, ScanState::TryingNmcli, ran(true, "A:40:WPA2\nB:90:--\nA:60:WPA2\n"));
    assert!(matches!(s, ScanState::Done));
    match a {
        ScanAction::Finish(Ok(n)) => {
            let v: Vec<(&str, i32)> = n.iter().map(|x| (x.ssid.as_str(), x.signal_strength)).collect();
            assert_eq!(v, vec![("B", -55), ("A", -70)]);
        }
        _ => panic!("expected networks"),
    }
}

#[test]
fn scan_tool_failure_is_subprocess_error() {
    let e = io::Error::new(io::ErrorKind::NotFound, "no iwlist");
    let (_, a) = scan_networks(ScanPlatform::Linux, ScanState::TryingIwlist, ScanEvent::ToolRan(Err(e)));
    assert!(matches!(a, ScanAction::Finish(Err(WifiError::Subprocess(_)))));
    let e = io::Error::new(io::ErrorKind::NotFound, "no netsh");
    let (_, a) = scan_networks(ScanPlatform::Windows, ScanState::RunningNetsh, ScanEvent::ToolRan(Err(e)));
    assert!(matches!(a, ScanAction::Finish(Err(WifiError::Subprocess(_)))));
}

#[test]
fn scan_on_other_platforms_finds_nothing() {
    let (s, a) = scan_networks(ScanPlatform::Other, ScanState::Start, ScanEvent::Begin);
    assert!(matches!(s, ScanState::Done));
    assert!(matches!(a, ScanAction::Finish(Ok(ref n)) if n.is_empty()));
}

#[test]
fn scan_on_windows_runs_netsh() {
    let (s, a) = scan_networks(ScanPlatform::Windows, ScanState::Start, ScanEvent::Begin);
    assert!(matches!(a, ScanAction::RunNetsh));
    let text = "SSID 1 : Office\n    Authentication : WPA2-Personal\n    Signal : 80%\n";
    let (_, a) = scan_networks(ScanPlatform::Windows, s, ran(true, text));
    match a {
        ScanAction::Finish(Ok(n)) => {
            assert_eq!(n.len(), 1);
            assert_eq!(n[0].ssid, "Office");
            assert_eq!(n[0].signal_strength, -60);
            assert!(n[0].secured);
        }
        _ => panic!("expected networks"),
    }
}

#[test]
fn picker_drops_unnamed_networks() {
    let v = named_networks(vec![net("", -10), net("A", -20), net("", -30), net("B", -40)]);
    let names: Vec<&str> = v.iter().map(|n| n.ssid.as_str()).collect();
    assert_eq!(names, vec!["A", "B"]);
}
