use sunburn::commands::{collect_ssh_keys, Drive, SshKeyCandidate};
use sunburn::device_enumerator::{
    self, display_name_for, gigabytes_exec, list_drives, DriveListing, EnumeratorError,
};
use sunburn::json::{JsonNumber, JsonValue};
use sunburn::plist_value::PlistValue;

fn candidate(name: &str, ext: Option<&str>, content: Option<&str>) -> SshKeyCandidate {
    SshKeyCandidate {
        name: name.to_string(),
        extension: ext.map(str::to_string),
        content: content.map(str::to_string),
    }
}

#[test]
fn ssh_keys_are_pub_files_trimmed_and_sorted() {
    let keys = collect_ssh_keys(vec![
        candidate("id_rsa.pub", Some("pub"), Some("ssh-rsa AAAA user@host\n")),
        candidate("id_rsa", None, None),
        candidate("config", None, Some("Host *")),
        candidate("empty.pub", Some("pub"), Some("  \n\t")),
        candidate("broken.pub", Some("pub"), None),
        candidate("authorized_keys", None, Some("ssh-ed25519 BBBB")),
        candidate("a_ed25519.pub", Some("pub"), Some("\tssh-ed25519 CCCC me\n")),
        candidate("notes.txt", Some("txt"), Some("hello")),
        candidate("Z.pub", Some("pub"), Some("ssh-ed25519 DDDD")),
    ]);
    let got: Vec<(&str, &str)> = keys.iter().map(|k| (k.name.as_str(), k.content.as_str())).collect();
    assert_eq!(
        got,
        vec![
            ("Z.pub", "ssh-ed25519 DDDD"),
            ("a_ed25519.pub", "ssh-ed25519 CCCC me"),
            ("id_rsa.pub", "ssh-rsa AAAA user@host"),
        ]
    );
}

#[test]
fn ssh_keys_none_found() {
    assert!(collect_ssh_keys(vec![]).is_empty());
    assert!(collect_ssh_keys(vec![candidate("known_hosts", None, Some("x"))]).is_empty());
}

#[test]
fn drive_for_front_end_uses_display_name() {
    let d = device_enumerator::Drive {
        path: "/dev/sdb".to_string(),
        display_name: "SanDisk Ultra (32 GB)".to_string(),
        size_bytes: 32010928128,
        removable: true,
    };
    let f = Drive::from_enumerated(d);
    assert_eq!(f.path, "/dev/sdb");
    assert_eq!(f.name, "SanDisk Ultra (32 GB)");
    assert_eq!(f.size_bytes, 32010928128);
    assert!(f.removable);
}

#[test]
fn gigabytes_round_half_to_even() {
    assert_eq!(gigabytes_exec(0), 0);
    assert_eq!(gigabytes_exec(499_999_999), 0);
    assert_eq!(gigabytes_exec(500_000_000), 0);
    assert_eq!(gigabytes_exec(500_000_001), 1);
    assert_eq!(gigabytes_exec(1_500_000_000), 2);
    assert_eq!(gigabytes_exec(2_500_000_000), 2);
    assert_eq!(gigabytes_exec(32_010_928_128), 32);
    assert_eq!(gigabytes_exec(u64::MAX), 18_446_744_074);
}

#[test]
fn gigabytes_agree_with_float_formatting() {
    for size in [0u64, 1, 499_999_999, 500_000_000, 1_500_000_000, 2_500_000_000, 16_000_000_000, 32_010_928_128, 999_999_999_999] {
        assert_eq!(gigabytes_exec(size).to_string(), format!("{:.0}", size as f64 / 1e9), "size {}", size);
    }
}

#[test]
fn display_name_format() {
    let label: Vec<char> = "SanDisk Ultra".chars().collect();
    assert_eq!(display_name_for(&label, 32_010_928_128), "SanDisk Ultra (32 GB)");
    assert_eq!(display_name_for(&[], 0), " (0 GB)");
}

#[test]
fn list_drives_dispatches_on_tool_output() {
    assert!(list_drives(DriveListing::Unsupported).unwrap().is_empty());
    let csv = "Node,DeviceID,Model,Size\nHOST,\\\\.\\PHYSICALDRIVE2,Stick,8000000000\n".to_string();
    let d = list_drives(DriveListing::WmicCsv(csv)).unwrap();
    assert_eq!(d.len(), 1);
    assert_eq!(d[0].display_name, "Stick (8 GB)");
    let json = br#"{"blockdevices":[{"name":"sdb","size":16000000000,"rm":true,"model":"Key","type":"disk"}]}"#;
    let d = list_drives(DriveListing::LsblkJson(json.to_vec())).unwrap();
    assert_eq!(d[0].path, "/dev/sdb");
    assert_eq!(d[0].display_name, "Key (16 GB)");
    assert!(matches!(list_drives(DriveListing::LsblkJson(b"[".to_vec())), Err(EnumeratorError::Parse(_))));
    assert!(matches!(list_drives(DriveListing::DiskutilPlist(b"not a plist".to_vec())), Err(EnumeratorError::Parse(_))));
}

#[test]
fn lsblk_without_blockdevices_is_parse_error() {
    let r = list_drives(DriveListing::LsblkJson(br#"{"devices":[]}"#.to_vec()));
    match r {
        Err(EnumeratorError::Parse(m)) => assert_eq!(m, "missing blockdevices"),
        _ => panic!("expected a parse error"),
    }
}

#[test]
fn diskutil_errors_are_parse_errors() {
    let not_dict = br#"<?xml version="1.0" encoding="UTF-8"?><plist version="1.0"><array/></plist>"#;
    match list_drives(DriveListing::DiskutilPlist(not_dict.to_vec())) {
        Err(EnumeratorError::Parse(m)) => assert_eq!(m, "expected plist dictionary"),
        _ => panic!("expected a parse error"),
    }
    let no_disks = br#"<?xml version="1.0" encoding="UTF-8"?><plist version="1.0"><dict/></plist>"#;
    match list_drives(DriveListing::DiskutilPlist(no_disks.to_vec())) {
        Err(EnumeratorError::Parse(m)) => assert_eq!(m, "missing AllDisksAndPartitions"),
        _ => panic!("expected a parse error"),
    }
}

fn text(s: &str) -> JsonValue {
    JsonValue::String(s.to_string())
}

fn number(u: u64) -> JsonValue {
    JsonValue::Number(JsonNumber { as_u64: Some(u), as_i64: i64::try_from(u).ok() })
}

fn object(entries: Vec<(&str, JsonValue)>) -> JsonValue {
    JsonValue::Object(entries.into_iter().map(|(k, v)| (k.to_string(), v)).collect())
}

#[test]
fn lsblk_document_rules() {
    let disk = |name: &str, rm: JsonValue, ty: &str, size: JsonValue, model: JsonValue| {
        object(vec![("name", text(name)), ("rm", rm), ("type", text(ty)), ("size", size), ("model", model)])
    };
    let doc = object(vec![(
        "blockdevices",
        JsonValue::Array(vec![
            disk("sda", JsonValue::Bool(false), "disk", number(500_000_000_000), text("SSD")),
            disk("sdb", JsonValue::Bool(true), "disk", number(32_010_928_128), text("  SanDisk Ultra  ")),
            disk("sdb1", JsonValue::Bool(true), "part", number(1), JsonValue::Null),
            disk("sdc", text("1"), "disk", text("16000000000"), JsonValue::Null),
            disk("sdd", number(1), "disk", text("junk"), text("")),
            disk("", JsonValue::Bool(true), "disk", number(1), JsonValue::Null),
            disk("sde", text("0"), "disk", number(1), JsonValue::Null),
        ]),
    )]);
    let d = device_enumerator::drives_from_lsblk_document(&doc).unwrap();
    let got: Vec<(&str, &str, u64)> =
        d.iter().map(|x| (x.path.as_str(), x.display_name.as_str(), x.size_bytes)).collect();
    assert_eq!(
        got,
        vec![
            ("/dev/sdb", "SanDisk Ultra (32 GB)", 32_010_928_128),
            ("/dev/sdc", "sdc (16 GB)", 16_000_000_000),
            ("/dev/sdd", "sdd (0 GB)", 0),
        ]
    );
    assert!(d.iter().all(|x| x.removable));
    assert!(matches!(
        device_enumerator::drives_from_lsblk_document(&JsonValue::Array(vec![])),
        Err(EnumeratorError::Parse(ref m)) if m == "missing blockdevices"
    ));
}

#[test]
fn lsblk_json_text_is_read_into_values() {
    let json = br#"{"blockdevices":[{"name":"sdb","size":"8000000000","rm":"1","model":null,"type":"disk"},{"name":"sdc","size":18446744073709551615,"rm":1,"model":"Big","type":"disk"}]}"#;
    let d = device_enumerator::parse_lsblk_json(json).unwrap();
    assert_eq!(d.len(), 2);
    assert_eq!(d[0].display_name, "sdb (8 GB)");
    assert_eq!(d[1].size_bytes, u64::MAX);
    assert_eq!(d[1].display_name, "Big (18446744074 GB)");
    assert!(matches!(device_enumerator::parse_lsblk_json(b"not json"), Err(EnumeratorError::Parse(_))));
}

#[test]
fn diskutil_document_rules() {
    let disk = |entries: Vec<(&str, PlistValue)>| {
        PlistValue::Dictionary(entries.into_iter().map(|(k, v)| (k.to_string(), v)).collect())
    };
    let s = |x: &str| PlistValue::String(x.to_string());
    let doc = disk(vec![(
        "AllDisksAndPartitions",
        PlistValue::Array(vec![
            disk(vec![("DeviceIdentifier", s("disk4")), ("Size", PlistValue::Integer(Some(32_010_928_128))), ("MediaName", s("SanDisk Ultra"))]),
            PlistValue::Boolean(true),
            disk(vec![("Size", PlistValue::Integer(Some(1)))]),
            disk(vec![("DeviceIdentifier", s("disk5")), ("Size", PlistValue::Integer(None))]),
            disk(vec![("DeviceIdentifier", s("disk6")), ("Size", PlistValue::Real), ("MediaName", s(""))]),
        ]),
    )]);
    let d = device_enumerator::drives_from_diskutil_plist(&doc).unwrap();
    let got: Vec<(&str, &str, u64)> =
        d.iter().map(|x| (x.path.as_str(), x.display_name.as_str(), x.size_bytes)).collect();
    assert_eq!(
        got,
        vec![
            ("/dev/disk4", "SanDisk Ultra (32 GB)", 32_010_928_128),
            ("/dev/disk5", "disk5 (0 GB)", 0),
            ("/dev/disk6", "disk6 (0 GB)", 0),
        ]
    );
}

#[test]
fn diskutil_plist_text_is_read_into_values() {
    let xml = br#"<?xml version="1.0" encoding="UTF-8"?>
<plist version="1.0"><dict><key>AllDisksAndPartitions</key><array>
<dict><key>DeviceIdentifier</key><string>disk7</string><key>Size</key><integer>-5</integer></dict>
<dict><key>DeviceIdentifier</key><string>disk8</string><key>Size</key><integer>64000000000</integer><key>MediaName</key><string>Card</string></dict>
</array></dict></plist>"#;
    let d = device_enumerator::parse_diskutil_plist(xml).unwrap();
    assert_eq!(d.len(), 2);
    assert_eq!(d[0].display_name, "disk7 (0 GB)");
    assert_eq!(d[0].size_bytes, 0);
    assert_eq!(d[1].display_name, "Card (64 GB)");
    let broken = br#"<?xml version="1.0"?><plist version="1.0"><dict><key>a</key>"#;
    assert!(matches!(device_enumerator::parse_diskutil_plist(broken), Err(EnumeratorError::Parse(_))));
}
