use std::collections::HashMap;

use sunburn::image_patcher::{
    boot_partition_offset, FileRead, FileWrite, ImagePatcher, PartitionCursor, PatcherError, SeekTarget,
    MBR_FIRST_LBA_OFFSET, SECTOR_SIZE,
};
use sunburn::manifest::{ManifestError, Step, WriteRule};

#[test]
fn mbr_constants() {
    assert_eq!(MBR_FIRST_LBA_OFFSET, 446 + 8);
    assert_eq!(SECTOR_SIZE, 512);
}

#[test]
fn boot_offset_is_lba_times_sector_size() {
    assert_eq!(boot_partition_offset([0, 8, 0, 0]).unwrap(), 2048 * 512);
    assert_eq!(boot_partition_offset([1, 0, 0, 0]).unwrap(), 512);
    assert_eq!(boot_partition_offset([0x00, 0x20, 0x00, 0x00]).unwrap(), 8192 * 512);
    assert_eq!(boot_partition_offset([0xff, 0xff, 0xff, 0xff]).unwrap(), 0xffff_ffffu64 * 512);
}

#[test]
fn boot_offset_zero_lba_is_invalid() {
    match boot_partition_offset([0, 0, 0, 0]) {
        Err(PatcherError::InvalidImage(m)) => {
            assert_eq!(m, "MBR first partition entry has LBA start == 0")
        }
        _ => panic!("expected an invalid image"),
    }
}

#[test]
fn open_keeps_path_and_offset() {
    let p = ImagePatcher::open("disk.img".to_string(), [0, 8, 0, 0]).unwrap();
    assert_eq!(p.path(), "disk.img");
    assert_eq!(p.boot_offset(), 1_048_576);
    assert!(matches!(
        ImagePatcher::open("disk.img".to_string(), [0, 0, 0, 0]),
        Err(PatcherError::InvalidImage(_))
    ));
}

#[test]
fn cursor_tracks_partition_positions() {
    let mut c = PartitionCursor::new(1000);
    assert_eq!(c.pos, 0);
    assert_eq!(c.absolute(), 1000);
    c.advance(24);
    assert_eq!(c.absolute(), 1024);
    assert_eq!(c.seek(SeekTarget::Start(10)), 10);
    assert_eq!(c.seek(SeekTarget::Current(5)), 15);
    assert_eq!(c.seek(SeekTarget::Current(-100)), 0);
    assert_eq!(c.base, 1000);
}

#[test]
fn cursor_seek_from_end() {
    let mut c = PartitionCursor::new(1000);
    assert_eq!(c.seek_from_end(5000), Some(4000));
    assert_eq!(c.pos, 4000);
    assert_eq!(c.seek_from_end(999), None);
    assert_eq!(c.pos, 4000);
    assert_eq!(c.seek_from_end(1000), Some(0));
}

fn patcher() -> ImagePatcher {
    ImagePatcher::open("disk.img".to_string(), [0, 8, 0, 0]).unwrap()
}

#[test]
fn read_manifest_decodes_utf8_text() {
    let text = "{\"name\": \"Caf\u{e9}\"}";
    let r = patcher().read_manifest(Ok(text.as_bytes().to_vec())).unwrap();
    assert_eq!(r.as_deref(), Some(text));
}

#[test]
fn read_manifest_missing_file_is_basic_mode() {
    let r = patcher().read_manifest(Err(PatcherError::Fat("cannot open 'sunburn.json': not found".to_string())));
    assert!(matches!(r, Ok(None)));
}

#[test]
fn read_manifest_rejects_invalid_utf8() {
    match patcher().read_manifest(Ok(vec![0x7b, 0xff, 0xfe, 0x7d])) {
        Err(PatcherError::InvalidImage(m)) => assert_eq!(m, "sunburn.json is not valid UTF-8"),
        _ => panic!("expected an invalid image"),
    }
}

#[test]
fn read_manifest_passes_other_errors_through() {
    let r = patcher().read_manifest(Err(PatcherError::Manifest(ManifestError::Validation("x".to_string()))));
    match r {
        Err(PatcherError::Manifest(ManifestError::Validation(m))) => assert_eq!(m, "x"),
        _ => panic!("expected the same error"),
    }
    let r = patcher().read_manifest(Err(PatcherError::InvalidImage("bad".to_string())));
    assert!(matches!(r, Err(PatcherError::InvalidImage(m)) if m == "bad"));
}

#[test]
fn apply_writes_substitutes_each_rule_in_order() {
    let step = Step {
        id: "network".to_string(),
        title: "Network".to_string(),
        fields: vec![],
        writes: vec![
            WriteRule { path: "wifi.txt".to_string(), template: "ssid={{ssid}}\ncountry={{country}}".to_string() },
            WriteRule { path: "notes.txt".to_string(), template: "k\u{f6}ln {{missing}}".to_string() },
        ],
    };
    let mut values = HashMap::new();
    values.insert("ssid".to_string(), "HomeNet".to_string());
    values.insert("country".to_string(), "DE".to_string());
    let writes = patcher().apply_writes(&step, &values);
    assert_eq!(writes.len(), 2);
    assert_eq!(writes[0].path, "wifi.txt");
    assert_eq!(writes[0].data, b"ssid=HomeNet\ncountry=DE".to_vec());
    assert_eq!(writes[1].path, "notes.txt");
    assert_eq!(writes[1].data, "k\u{f6}ln {{missing}}".as_bytes().to_vec());
}

#[test]
fn written_text_reads_back() {
    let step = Step {
        id: "s".to_string(),
        title: "S".to_string(),
        fields: vec![],
        writes: vec![WriteRule { path: "a.txt".to_string(), template: "h\u{e9}llo {{name}}".to_string() }],
    };
    let mut values = HashMap::new();
    values.insert("name".to_string(), "w\u{f6}rld".to_string());
    let p = patcher();
    let writes = p.apply_writes(&step, &values);
    let data = writes.into_iter().next().unwrap().data;
    let back = p.read_manifest(Ok(data)).unwrap();
    assert_eq!(back.as_deref(), Some("h\u{e9}llo w\u{f6}rld"));
}

#[test]
fn apply_writes_with_no_rules_writes_nothing() {
    let step = Step { id: "s".to_string(), title: "S".to_string(), fields: vec![], writes: vec![] };
    assert!(patcher().apply_writes(&step, &HashMap::new()).is_empty());
}

#[test]
fn read_file_outcomes() {
    let p = patcher();
    assert_eq!(p.read_file("a.txt", FileRead::Read(vec![1, 2, 3])).unwrap(), vec![1, 2, 3]);
    match p.read_file("sunburn.json", FileRead::OpenFailed("file not found".to_string())) {
        Err(PatcherError::Fat(m)) => assert_eq!(m, "cannot open 'sunburn.json': file not found"),
        _ => panic!("expected a FAT error"),
    }
    let e = std::io::Error::new(std::io::ErrorKind::InvalidData, "bad boot sector");
    assert!(matches!(p.read_file("a.txt", FileRead::MountFailed(e)), Err(PatcherError::Io(ref e)) if e.to_string() == "bad boot sector"));
    let e = std::io::Error::new(std::io::ErrorKind::UnexpectedEof, "short");
    assert!(matches!(p.read_file("a.txt", FileRead::ReadFailed(e)), Err(PatcherError::Io(_))));
}

#[test]
fn missing_manifest_file_means_basic_mode() {
    let p = patcher();
    let file = p.read_file("sunburn.json", FileRead::OpenFailed("not found".to_string()));
    assert!(matches!(p.read_manifest(file), Ok(None)));
}

#[test]
fn write_file_outcomes() {
    let p = patcher();
    assert!(p.write_file("wifi.txt", FileWrite::Written).is_ok());
    match p.write_file("wifi.txt", FileWrite::CreateFailed("no space".to_string())) {
        Err(PatcherError::Fat(m)) => assert_eq!(m, "cannot create 'wifi.txt': no space"),
        _ => panic!("expected a FAT error"),
    }
    let e = std::io::Error::new(std::io::ErrorKind::Other, "write");
    assert!(matches!(p.write_file("wifi.txt", FileWrite::WriteFailed(e)), Err(PatcherError::Io(_))));
    let e = std::io::Error::new(std::io::ErrorKind::Other, "mount");
    assert!(matches!(p.write_file("wifi.txt", FileWrite::MountFailed(e)), Err(PatcherError::Io(_))));
}

fn wizard_field(id: &str, default: Option<&str>, hidden: bool) -> sunburn::manifest::Field {
    sunburn::manifest::Field {
        id: id.to_string(),
        label: "L".to_string(),
        field_type: sunburn::manifest::FieldType::Text,
        required: false,
        default: default.map(str::to_string),
        show_when: if hidden {
            Some(sunburn::manifest::ShowWhen { field: "ssh_enabled".to_string(), value: "true".to_string() })
        } else {
            None
        },
        options: None,
    }
}

#[test]
fn hidden_field_without_default_becomes_empty() {
    let step = Step {
        id: "access".to_string(),
        title: "Access".to_string(),
        fields: vec![wizard_field("ssh_enabled", Some("false"), false), wizard_field("ssh_key", None, true)],
        writes: vec![WriteRule {
            path: "access.txt".to_string(),
            template: "ssh_enabled={{ssh_enabled}}\nssh_key={{ssh_key}}".to_string(),
        }],
    };
    let writes = patcher().apply_writes(&step, &HashMap::new());
    assert_eq!(writes[0].data, b"ssh_enabled=false\nssh_key=".to_vec());
    let only_key = Step { writes: vec![WriteRule { path: "access.txt".to_string(), template: "ssh_key={{ssh_key}}".to_string() }], ..step };
    assert_eq!(patcher().apply_writes(&only_key, &HashMap::new())[0].data, b"ssh_key=".to_vec());
}

#[test]
fn collected_values_come_before_defaults() {
    let step = Step {
        id: "network".to_string(),
        title: "Network".to_string(),
        fields: vec![wizard_field("country", Some("US"), false), wizard_field("ssid", None, false)],
        writes: vec![WriteRule {
            path: "wifi.txt".to_string(),
            template: "{{ssid}}/{{country}}/{{other}}".to_string(),
        }],
    };
    let mut values = HashMap::new();
    values.insert("ssid".to_string(), "Home".to_string());
    assert_eq!(patcher().apply_writes(&step, &values)[0].data, b"Home/US/{{other}}".to_vec());
    values.insert("country".to_string(), "DE".to_string());
    assert_eq!(patcher().apply_writes(&step, &values)[0].data, b"Home/DE/{{other}}".to_vec());
}

#[test]
fn manifest_writes_go_step_after_step() {
    let net = Step {
        id: "network".to_string(),
        title: "Network".to_string(),
        fields: vec![wizard_field("country", Some("US"), false)],
        writes: vec![WriteRule { path: "wifi.txt".to_string(), template: "c={{country}}".to_string() }],
    };
    let dev = Step {
        id: "device".to_string(),
        title: "Device".to_string(),
        fields: vec![wizard_field("hostname", Some("my-device"), false)],
        writes: vec![
            WriteRule { path: "device.txt".to_string(), template: "h={{hostname}}".to_string() },
            WriteRule { path: "other.txt".to_string(), template: "{{country}}".to_string() },
        ],
    };
    let m = sunburn::manifest::Manifest {
        version: "1".to_string(),
        name: "Solar".to_string(),
        description: None,
        steps: vec![net, dev],
    };
    let mut values = HashMap::new();
    values.insert("hostname".to_string(), "pi".to_string());
    let w = patcher().manifest_writes(&m, &values);
    let got: Vec<(&str, &[u8])> = w.iter().map(|x| (x.path.as_str(), x.data.as_slice())).collect();
    assert_eq!(
        got,
        vec![
            ("wifi.txt", b"c=US".as_slice()),
            ("device.txt", b"h=pi".as_slice()),
            ("other.txt", b"{{country}}".as_slice()),
        ]
    );
}
