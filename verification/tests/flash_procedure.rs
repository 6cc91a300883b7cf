use std::io;

use sunburn::flasher::{
    raw_device_path_for, FlashAction, FlashError, FlashEvent, FlashState, Flasher, OpenFailure,
    Platform, SpeedSample, CHUNK_SIZE, PROGRESS_INTERVAL_NANOS, WINDOWS_CHUNK_SIZE,
};

fn flasher() -> Flasher {
    Flasher::new("image.img".to_string(), "/dev/disk4".to_string())
}

fn step(f: &Flasher, p: Platform, s: FlashState, e: FlashEvent) -> (FlashState, FlashAction) {
    f.flash(p, s, e)
}

#[test]
fn flasher_keeps_paths() {
    let f = flasher();
    assert_eq!(f.source_path(), "image.img");
    assert_eq!(f.dest_path(), "/dev/disk4");
}

#[test]
fn constants() {
    assert_eq!(CHUNK_SIZE, 1024 * 1024);
    assert_eq!(WINDOWS_CHUNK_SIZE, 512 * 1024);
    assert_eq!(PROGRESS_INTERVAL_NANOS, 500_000_000);
}

#[test]
fn raw_device_of_mac_disk() {
    assert_eq!(raw_device_path_for("/dev/disk4"), "/dev/rdisk4");
    assert_eq!(raw_device_path_for("/dev/disk12s1"), "/dev/rdisk12s1");
    assert_eq!(raw_device_path_for("/dev/sdb"), "/dev/sdb");
    assert_eq!(raw_device_path_for("/dev/rdisk4"), "/dev/rdisk4");
}

#[test]
fn linux_full_run_reports_progress() {
    let f = Flasher::new("image.img".to_string(), "/dev/sdb".to_string());
    let p = Platform::Linux;
    let total = 2 * CHUNK_SIZE as u64;

    let (s, a) = step(&f, p, FlashState::Start, FlashEvent::Begin);
    assert!(matches!(a, FlashAction::InspectSource(ref x) if x == "image.img"));
    let (s, a) = step(&f, p, s, FlashEvent::SourceInspected { exists: true, length: Ok(total) });
    assert!(matches!(a, FlashAction::Sync));
    let (s, a) = step(&f, p, s, FlashEvent::SyncFinished);
    assert!(matches!(a, FlashAction::CheckDestination(ref x) if x == "/dev/sdb"));
    let (s, a) = step(&f, p, s, FlashEvent::DestinationChecked { exists: true });
    assert!(matches!(a, FlashAction::OpenDestination(ref x) if x == "/dev/sdb"));
    let (s, a) = step(&f, p, s, FlashEvent::DestinationOpened(Ok(())));
    assert!(matches!(a, FlashAction::OpenSource(ref x) if x == "image.img"));
    let (s, a) = step(&f, p, s, FlashEvent::SourceOpened(Ok(())));
    assert!(matches!(a, FlashAction::Read(n) if n == CHUNK_SIZE));

    let (s, a) = step(&f, p, s, FlashEvent::ChunkRead(Ok(CHUNK_SIZE)));
    assert!(matches!(a, FlashAction::Write(n) if n == CHUNK_SIZE));
    let (s, a) = step(&f, p, s, FlashEvent::ChunkWritten { result: Ok(()), elapsed_nanos: 100_000_000 });
    assert!(matches!(a, FlashAction::Read(n) if n == CHUNK_SIZE));
    let (s, a) = step(&f, p, s, FlashEvent::ChunkRead(Ok(CHUNK_SIZE)));
    assert!(matches!(a, FlashAction::Write(_)));
    let (s, a) = step(&f, p, s, FlashEvent::ChunkWritten { result: Ok(()), elapsed_nanos: 600_000_000 });
    match a {
        FlashAction::Report { bytes_written, total_bytes, speed } => {
            assert_eq!(bytes_written, total);
            assert_eq!(total_bytes, total);
            assert_eq!(speed, SpeedSample::Measured { bytes: total, elapsed_nanos: 600_000_000 });
        }
        _ => panic!("expected a progress report"),
    }
    let (s, a) = step(&f, p, s, FlashEvent::ReportDelivered);
    assert!(matches!(a, FlashAction::Read(_)));
    let (s, a) = step(&f, p, s, FlashEvent::ChunkRead(Ok(0)));
    match a {
        FlashAction::Report { bytes_written, total_bytes, speed } => {
            assert_eq!(bytes_written, total);
            assert_eq!(total_bytes, total);
            assert_eq!(speed, SpeedSample::Zero);
        }
        _ => panic!("expected the final report"),
    }
    let (s, a) = step(&f, p, s, FlashEvent::ReportDelivered);
    assert!(matches!(a, FlashAction::Flush));
    let (s, a) = step(&f, p, s, FlashEvent::Flushed(Ok(())));
    assert!(matches!(a, FlashAction::Sync));
    let (s, a) = step(&f, p, s, FlashEvent::SyncFinished);
    assert!(matches!(a, FlashAction::Finish(Ok(()))));
    assert!(matches!(s, FlashState::Done));
}

#[test]
fn report_counts_bytes_since_the_last_report() {
    let f = flasher();
    let p = Platform::Linux;
    let s = FlashState::Reading { total: 100, written: 40, since_last: 10 };
    let (s, _) = step(&f, p, s, FlashEvent::ChunkRead(Ok(20)));
    let (s, a) = step(&f, p, s, FlashEvent::ChunkWritten { result: Ok(()), elapsed_nanos: 500_000_000 });
    match a {
        FlashAction::Report { bytes_written, speed, .. } => {
            assert_eq!(bytes_written, 60);
            assert_eq!(speed, SpeedSample::Measured { bytes: 30, elapsed_nanos: 500_000_000 });
        }
        _ => panic!("expected a report at exactly 500 ms"),
    }
    let (s, _) = step(&f, p, s, FlashEvent::ReportDelivered);
    assert!(matches!(s, FlashState::Reading { written: 60, since_last: 0, .. }));
}

#[test]
fn missing_source_is_reported() {
    let f = flasher();
    let (s, _) = step(&f, Platform::Linux, FlashState::Start, FlashEvent::Begin);
    let (_, a) = step(&f, Platform::Linux, s, FlashEvent::SourceInspected { exists: false, length: Ok(0) });
    assert!(matches!(a, FlashAction::Finish(Err(FlashError::SourceNotFound(ref x))) if x == "image.img"));
}

#[test]
fn unreadable_source_length_is_io_error() {
    let f = flasher();
    let e = io::Error::new(io::ErrorKind::Other, "metadata");
    let (_, a) = step(&f, Platform::Linux, FlashState::InspectingSource, FlashEvent::SourceInspected { exists: true, length: Err(e) });
    assert!(matches!(a, FlashAction::Finish(Err(FlashError::Io(ref e))) if e.to_string() == "metadata"));
}

#[test]
fn unsupported_platform_fails() {
    let f = flasher();
    let (s, a) = step(&f, Platform::Other, FlashState::InspectingSource, FlashEvent::SourceInspected { exists: true, length: Ok(10) });
    assert!(matches!(s, FlashState::Done));
    match a {
        FlashAction::Finish(Err(FlashError::Io(e))) => {
            assert_eq!(e.kind(), io::ErrorKind::Unsupported);
            assert_eq!(e.to_string(), "unsupported platform");
        }
        _ => panic!("expected an I/O error"),
    }
}

#[test]
fn macos_unmounts_and_uses_raw_device() {
    let f = flasher();
    let p = Platform::MacOs;
    let (s, a) = step(&f, p, FlashState::InspectingSource, FlashEvent::SourceInspected { exists: true, length: Ok(10) });
    assert!(matches!(a, FlashAction::UnmountDisk(ref d) if d == "/dev/disk4"));
    let (s, a) = step(&f, p, s, FlashEvent::UnmountFinished(Ok((true, String::new()))));
    assert!(matches!(a, FlashAction::CheckDestination(ref d) if d == "/dev/rdisk4"));
    let (s, a) = step(&f, p, s, FlashEvent::DestinationChecked { exists: false });
    assert!(matches!(s, FlashState::Done));
    assert!(matches!(a, FlashAction::Finish(Err(FlashError::DestinationNotFound(ref d))) if d == "/dev/rdisk4"));
}

#[test]
fn macos_unmount_failures_stop_the_flash() {
    let f = flasher();
    let p = Platform::MacOs;
    let (_, a) = step(&f, p, FlashState::Unmounting { total: 1 }, FlashEvent::UnmountFinished(Ok((false, "busy".to_string()))));
    assert!(matches!(a, FlashAction::Finish(Err(FlashError::UnmountFailed(ref m))) if m == "busy"));
    let (_, a) = step(&f, p, FlashState::Unmounting { total: 1 }, FlashEvent::UnmountFinished(Err("no diskutil".to_string())));
    assert!(matches!(a, FlashAction::Finish(Err(FlashError::UnmountFailed(ref m))) if m == "no diskutil"));
}

#[test]
fn macos_ejects_after_flush() {
    let f = flasher();
    let (s, a) = step(&f, Platform::MacOs, FlashState::Flushing, FlashEvent::Flushed(Ok(())));
    assert!(matches!(a, FlashAction::EjectDisk(ref d) if d == "/dev/disk4"));
    let (_, a) = step(&f, Platform::MacOs, s, FlashEvent::EjectFinished);
    assert!(matches!(a, FlashAction::Finish(Ok(()))));
}

#[test]
fn windows_opens_directly_with_small_chunks() {
    let f = Flasher::new("image.img".to_string(), "\\\\.\\PHYSICALDRIVE1".to_string());
    let p = Platform::Windows;
    let (s, a) = step(&f, p, FlashState::InspectingSource, FlashEvent::SourceInspected { exists: true, length: Ok(10) });
    assert!(matches!(a, FlashAction::OpenDestination(ref d) if d == "\\\\.\\PHYSICALDRIVE1"));
    let (s, _) = step(&f, p, s, FlashEvent::DestinationOpened(Ok(())));
    let (_, a) = step(&f, p, s, FlashEvent::SourceOpened(Ok(())));
    assert!(matches!(a, FlashAction::Read(n) if n == WINDOWS_CHUNK_SIZE));
    let (_, a) = step(&f, p, FlashState::Flushing, FlashEvent::Flushed(Ok(())));
    assert!(matches!(a, FlashAction::Finish(Ok(()))));
}

#[test]
fn open_failures_map_to_errors() {
    let f = flasher();
    let path = "/dev/sdb".to_string();
    let open = |p: Platform, failure: OpenFailure| {
        let e = io::Error::new(io::ErrorKind::Other, "open");
        step(&f, p, FlashState::OpeningDestination { total: 1, path: path.clone() }, FlashEvent::DestinationOpened(Err((failure, e)))).1
    };
    assert!(matches!(open(Platform::Linux, OpenFailure::PermissionDenied), FlashAction::Finish(Err(FlashError::PermissionDenied(ref d))) if d == "/dev/sdb"));
    assert!(matches!(open(Platform::Windows, OpenFailure::NotFound), FlashAction::Finish(Err(FlashError::DestinationNotFound(ref d))) if d == "/dev/sdb"));
    assert!(matches!(open(Platform::Linux, OpenFailure::NotFound), FlashAction::Finish(Err(FlashError::Io(_)))));
    assert!(matches!(open(Platform::Windows, OpenFailure::Other), FlashAction::Finish(Err(FlashError::Io(_)))));
}

#[test]
fn io_errors_during_copy_stop_the_flash() {
    let f = flasher();
    let p = Platform::Linux;
    let err = || io::Error::new(io::ErrorKind::Other, "disk");
    let (s, a) = step(&f, p, FlashState::Reading { total: 1, written: 0, since_last: 0 }, FlashEvent::ChunkRead(Err(err())));
    assert!(matches!(s, FlashState::Done));
    assert!(matches!(a, FlashAction::Finish(Err(FlashError::Io(_)))));
    let (_, a) = step(&f, p, FlashState::Writing { total: 1, written: 0, since_last: 0, pending: 1 }, FlashEvent::ChunkWritten { result: Err(err()), elapsed_nanos: 0 });
    assert!(matches!(a, FlashAction::Finish(Err(FlashError::Io(_)))));
    let (_, a) = step(&f, p, FlashState::Flushing, FlashEvent::Flushed(Err(err())));
    assert!(matches!(a, FlashAction::Finish(Err(FlashError::Io(_)))));
    let (_, a) = step(&f, p, FlashState::OpeningSource { total: 1 }, FlashEvent::SourceOpened(Err(err())));
    assert!(matches!(a, FlashAction::Finish(Err(FlashError::Io(_)))));
}
