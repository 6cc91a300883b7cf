//! Writing a disk image to a removable drive.
//!
//! The procedure is a state machine: [`Flasher::flash`] takes the current
//! [`FlashState`] and the [`FlashEvent`] that the last [`FlashAction`]
//! produced, and returns the next state and action. The caller performs the
//! actions (file and device I/O, running tools, the progress callback) and
//! reports their outcomes as events.
use vstd::prelude::*;

use crate::text::{chars_of, copy_range, push_all, starts_with, starts_with_chars, string_from_chars};

verus! {

/// Progress of a flash, handed to the caller's callback.
#[derive(Debug, Clone, Copy, PartialEq, Eq, Structural)]
pub struct FlashProgress {
    pub bytes_written: u64,
    pub total_bytes: u64,
    pub speed_bps: u64,
}

#[derive(Debug)]
pub enum FlashError {
    SourceNotFound(String),
    DestinationNotFound(String),
    PermissionDenied(String),
    UnmountFailed(String),
    Io(std::io::Error),
}

/// A source image and a destination device.
pub struct Flasher {
    source_path: String,
    dest_path: String,
}

/// The operating system whose procedure is followed.
#[derive(Debug, Clone, Copy, PartialEq, Eq, Structural)]
pub enum Platform {
    MacOs,
    Linux,
    Windows,
    Other,
}

/// Why opening the destination failed, as far as the procedure cares.
#[derive(Debug, Clone, Copy, PartialEq, Eq, Structural)]
pub enum OpenFailure {
    PermissionDenied,
    NotFound,
    Other,
}

/// What a progress report's speed is computed from.
#[derive(Debug, Clone, Copy, PartialEq, Eq, Structural)]
pub enum SpeedSample {
    /// `bytes` written over the last `elapsed_nanos` nanoseconds.
    Measured { bytes: u64, elapsed_nanos: u64 },
    /// No speed: the final report.
    Zero,
}

/// Time between periodic progress reports: 500 ms.
pub const PROGRESS_INTERVAL_NANOS: u64 = 500_000_000;

/// Bytes read and written at a time: 1 MiB.
pub const CHUNK_SIZE: usize = 1048576;

/// Bytes read and written at a time on Windows raw drives: 512 KiB.
pub const WINDOWS_CHUNK_SIZE: usize = 524288;

/// Where the procedure stands. `total` is the length of the source image,
/// `written` the bytes written so far and `since_last` those written since
/// the last progress report.
pub enum FlashState {
    Start,
    InspectingSource,
    Unmounting { total: u64 },
    SyncingBefore { total: u64 },
    CheckingDestination { total: u64, path: String },
    OpeningDestination { total: u64, path: String },
    OpeningSource { total: u64 },
    Reading { total: u64, written: u64, since_last: u64 },
    Writing { total: u64, written: u64, since_last: u64, pending: usize },
    Reporting { total: u64, written: u64 },
    FinalReport { total: u64, written: u64 },
    Flushing,
    Ejecting,
    SyncingAfter,
    Done,
}

/// What the caller must do next.
pub enum FlashAction {
    /// Check that the source image exists, then read its length.
    InspectSource(String),
    /// Run `diskutil unmountDisk <disk>`.
    UnmountDisk(String),
    /// Run `sync`; its outcome does not matter.
    Sync,
    /// Check that the device path exists.
    CheckDestination(String),
    /// Open the device path for writing.
    OpenDestination(String),
    /// Open the source image for reading, and start the progress clock.
    OpenSource(String),
    /// Read up to this many bytes from the source.
    Read(usize),
    /// Write all of the bytes just read (this many) to the destination, then
    /// tell the time since the progress clock was last started.
    Write(usize),
    /// Call the progress callback; for a measured speed, restart the
    /// progress clock afterwards.
    Report { bytes_written: u64, total_bytes: u64, speed: SpeedSample },
    /// Flush the destination.
    Flush,
    /// Run `diskutil eject <disk>`; its outcome does not matter.
    EjectDisk(String),
    /// Stop with this outcome.
    Finish(Result<(), FlashError>),
}

/// What the last action produced.
pub enum FlashEvent {
    Begin,
    /// Whether the source exists, and its length or the error reading it.
    SourceInspected { exists: bool, length: Result<u64, std::io::Error> },
    /// The unmount tool ran (whether it succeeded, and its error output), or
    /// could not be run (the message).
    UnmountFinished(Result<(bool, String), String>),
    SyncFinished,
    DestinationChecked { exists: bool },
    DestinationOpened(Result<(), (OpenFailure, std::io::Error)>),
    SourceOpened(Result<(), std::io::Error>),
    /// Bytes read (0 at the end of the source), or the read error.
    ChunkRead(Result<usize, std::io::Error>),
    /// The write's outcome and the nanoseconds on the progress clock.
    ChunkWritten { result: Result<(), std::io::Error>, elapsed_nanos: u64 },
    ReportDelivered,
    Flushed(Result<(), std::io::Error>),
    EjectFinished,
}

/// `std::io::Error::new(ErrorKind::Unsupported, "unsupported platform")`.
#[verifier::external_body]
fn unsupported_platform_error() -> std::io::Error {
    std::io::Error::new(std::io::ErrorKind::Unsupported, "unsupported platform")
}

/// The raw device of a macOS disk: `/dev/diskN` becomes `/dev/rdiskN`; any
/// other path is kept.
pub open spec fn raw_device_path(disk: Seq<char>) -> Seq<char> {
    if starts_with(disk, "/dev/disk"@) {
        "/dev/rdisk"@ + disk.subrange("/dev/disk"@.len() as int, disk.len() as int)
    } else {
        disk
    }
}

pub fn raw_device_path_for(disk: &str) -> (r: String)
    ensures
        r@ == raw_device_path(disk@),
{
    let d = chars_of(disk);
    let prefix = chars_of("/dev/disk");
    if starts_with_chars(d.as_slice(), prefix.as_slice()) {
        let mut v = chars_of("/dev/rdisk");
        push_all(&mut v, copy_range(d.as_slice(), prefix.len(), d.len()).as_slice());
        string_from_chars(v.as_slice())
    } else {
        disk.to_owned()
    }
}

/// The chunk size of a platform.
pub open spec fn chunk_size(p: Platform) -> usize {
    if p == Platform::Windows {
        WINDOWS_CHUNK_SIZE
    } else {
        CHUNK_SIZE
    }
}

/// The state is consistent: no more bytes written since the last report
/// than in all.
pub open spec fn wf_state(s: FlashState) -> bool {
    match s {
        FlashState::Reading { written, since_last, .. } => since_last <= written,
        FlashState::Writing { written, since_last, .. } => since_last <= written,
        _ => true,
    }
}

/// The event answers the action pending in state `s` (and a write does not
/// take the byte count past `u64::MAX`).
pub open spec fn expects(s: FlashState, e: FlashEvent) -> bool {
    match s {
        FlashState::Start => e is Begin,
        FlashState::InspectingSource => e is SourceInspected,
        FlashState::Unmounting { .. } => e is UnmountFinished,
        FlashState::SyncingBefore { .. } => e is SyncFinished,
        FlashState::CheckingDestination { .. } => e is DestinationChecked,
        FlashState::OpeningDestination { .. } => e is DestinationOpened,
        FlashState::OpeningSource { .. } => e is SourceOpened,
        FlashState::Reading { .. } => e is ChunkRead,
        FlashState::Writing { written, pending, .. } => match e {
            FlashEvent::ChunkWritten { result, .. } => result is Ok ==> written + pending
                <= u64::MAX,
            _ => false,
        },
        FlashState::Reporting { .. } => e is ReportDelivered,
        FlashState::FinalReport { .. } => e is ReportDelivered,
        FlashState::Flushing => e is Flushed,
        FlashState::Ejecting => e is EjectFinished,
        FlashState::SyncingAfter => e is SyncFinished,
        FlashState::Done => false,
    }
}

/// The finished state and its action.
pub open spec fn finish(r: Result<(), FlashError>) -> (FlashState, FlashAction) {
    (FlashState::Done, FlashAction::Finish(r))
}

impl Flasher {
    pub fn new(source_path: String, dest_path: String) -> (r: Flasher)
        ensures
            r.spec_source() == source_path@,
            r.spec_dest() == dest_path@,
    {
        Flasher { source_path, dest_path }
    }

    pub closed spec fn spec_source(&self) -> Seq<char> {
        self.source_path@
    }

    pub closed spec fn spec_dest(&self) -> Seq<char> {
        self.dest_path@
    }

    /// Path of the source image.
    pub fn source_path(&self) -> (r: &str)
        ensures
            r@ == self.spec_source(),
    {
        self.source_path.as_str()
    }

    /// Path of the destination device.
    pub fn dest_path(&self) -> (r: &str)
        ensures
            r@ == self.spec_dest(),
    {
        self.dest_path.as_str()
    }

    /// One step of the procedure, as [`Flasher::flash`] takes it: the next
    /// state and action `r` for `state` and `event` on `platform`.
    pub open spec fn step_ok(&self, platform: Platform, state: FlashState, event: FlashEvent, r: (
        FlashState,
        FlashAction,
    )) -> bool {
        match (state, event) {
            (FlashState::Start, _) => {
                &&& r.0 is InspectingSource
                &&& r.1 matches FlashAction::InspectSource(p) && p@ == self.spec_source()
            },
            (FlashState::InspectingSource, FlashEvent::SourceInspected { exists, length }) => if !exists {
                &&& r.0 is Done
                &&& r.1 matches FlashAction::Finish(Err(FlashError::SourceNotFound(p)))
                    && p@ == self.spec_source()
            } else {
                match length {
                    Err(e) => r == finish(Err(FlashError::Io(e))),
                    Ok(total) => match platform {
                        Platform::MacOs => {
                            &&& r.0 == (FlashState::Unmounting { total })
                            &&& r.1 matches FlashAction::UnmountDisk(d) && d@ == self.spec_dest()
                        },
                        Platform::Linux => {
                            &&& r.0 == (FlashState::SyncingBefore { total })
                            &&& r.1 is Sync
                        },
                        Platform::Windows => {
                            &&& r.0 matches FlashState::OpeningDestination { total: t, path }
                                && t == total && path@ == self.spec_dest()
                            &&& r.1 matches FlashAction::OpenDestination(d) && d@ == self.spec_dest()
                        },
                        Platform::Other => {
                            &&& r.0 is Done
                            &&& r.1 matches FlashAction::Finish(Err(FlashError::Io(_)))
                        },
                    },
                }
            },
            (FlashState::Unmounting { total }, FlashEvent::UnmountFinished(out)) => match out {
                Err(m) => {
                    &&& r.0 is Done
                    &&& r.1 matches FlashAction::Finish(Err(FlashError::UnmountFailed(x)))
                        && x@ == m@
                },
                Ok((false, stderr)) => {
                    &&& r.0 is Done
                    &&& r.1 matches FlashAction::Finish(Err(FlashError::UnmountFailed(x)))
                        && x@ == stderr@
                },
                Ok((true, _)) => {
                    &&& r.0 matches FlashState::CheckingDestination { total: t, path } && t
                        == total && path@ == raw_device_path(self.spec_dest())
                    &&& r.1 matches FlashAction::CheckDestination(d) && d@ == raw_device_path(
                        self.spec_dest(),
                    )
                },
            },
            (FlashState::SyncingBefore { total }, _) => {
                &&& r.0 matches FlashState::CheckingDestination { total: t, path } && t == total
                    && path@ == self.spec_dest()
                &&& r.1 matches FlashAction::CheckDestination(d) && d@ == self.spec_dest()
            },
            (
                FlashState::CheckingDestination { total, path },
                FlashEvent::DestinationChecked { exists },
            ) => if exists {
                &&& r.0 == (FlashState::OpeningDestination { total, path })
                &&& r.1 matches FlashAction::OpenDestination(d) && d@ == path@
            } else {
                &&& r.0 is Done
                &&& r.1 matches FlashAction::Finish(Err(FlashError::DestinationNotFound(d)))
                    && d@ == path@
            },
            (
                FlashState::OpeningDestination { total, path },
                FlashEvent::DestinationOpened(opened),
            ) => match opened {
                Ok(()) => {
                    &&& r.0 == (FlashState::OpeningSource { total })
                    &&& r.1 matches FlashAction::OpenSource(p) && p@ == self.spec_source()
                },
                Err((OpenFailure::PermissionDenied, _)) => {
                    &&& r.0 is Done
                    &&& r.1 matches FlashAction::Finish(Err(FlashError::PermissionDenied(d)))
                        && d@ == path@
                },
                Err((OpenFailure::NotFound, e)) => if platform == Platform::Windows {
                    &&& r.0 is Done
                    &&& r.1 matches FlashAction::Finish(Err(FlashError::DestinationNotFound(d)))
                        && d@ == path@
                } else {
                    r == finish(Err(FlashError::Io(e)))
                },
                Err((OpenFailure::Other, e)) => r == finish(Err(FlashError::Io(e))),
            },
            (FlashState::OpeningSource { total }, FlashEvent::SourceOpened(opened)) => match opened {
                Ok(()) => {
                    &&& r.0 == (FlashState::Reading { total, written: 0, since_last: 0 })
                    &&& r.1 == FlashAction::Read(chunk_size(platform))
                },
                Err(e) => r == finish(Err(FlashError::Io(e))),
            },
            (
                FlashState::Reading { total, written, since_last },
                FlashEvent::ChunkRead(read),
            ) => match read {
                Err(e) => r == finish(Err(FlashError::Io(e))),
                Ok(n) => if n == 0 {
                    &&& r.0 == (FlashState::FinalReport { total, written })
                    &&& r.1 == (FlashAction::Report {
                        bytes_written: written,
                        total_bytes: total,
                        speed: SpeedSample::Zero,
                    })
                } else {
                    &&& r.0 == (FlashState::Writing { total, written, since_last, pending: n })
                    &&& r.1 == FlashAction::Write(n)
                },
            },
            (
                FlashState::Writing { total, written, since_last, pending },
                FlashEvent::ChunkWritten { result, elapsed_nanos },
            ) => match result {
                Err(e) => r == finish(Err(FlashError::Io(e))),
                Ok(()) => if elapsed_nanos >= PROGRESS_INTERVAL_NANOS {
                    &&& r.0 == (FlashState::Reporting { total, written: (written + pending) as u64 })
                    &&& r.1 == (FlashAction::Report {
                        bytes_written: (written + pending) as u64,
                        total_bytes: total,
                        speed: SpeedSample::Measured {
                            bytes: (since_last + pending) as u64,
                            elapsed_nanos,
                        },
                    })
                } else {
                    &&& r.0 == (FlashState::Reading {
                        total,
                        written: (written + pending) as u64,
                        since_last: (since_last + pending) as u64,
                    })
                    &&& r.1 == FlashAction::Read(chunk_size(platform))
                },
            },
            (FlashState::Reporting { total, written }, _) => {
                &&& r.0 == (FlashState::Reading { total, written, since_last: 0 })
                &&& r.1 == FlashAction::Read(chunk_size(platform))
            },
            (FlashState::FinalReport { .. }, _) => {
                &&& r.0 is Flushing
                &&& r.1 is Flush
            },
            (FlashState::Flushing, FlashEvent::Flushed(flushed)) => match flushed {
                Err(e) => r == finish(Err(FlashError::Io(e))),
                Ok(()) => match platform {
                    Platform::MacOs => {
                        &&& r.0 is Ejecting
                        &&& r.1 matches FlashAction::EjectDisk(d) && d@ == self.spec_dest()
                    },
                    Platform::Linux => {
                        &&& r.0 is SyncingAfter
                        &&& r.1 is Sync
                    },
                    _ => r == finish(Ok(())),
                },
            },
            (FlashState::Ejecting, _) => r == finish(Ok(())),
            (FlashState::SyncingAfter, _) => r == finish(Ok(())),
            _ => false,
        }
    }

    /// One step of the procedure on `platform`.
    ///
    /// The source must exist and its length be known. On macOS the disk is
    /// unmounted (a failure, or a tool that cannot run, stops the flash) and
    /// its raw device `/dev/rdiskN` is used; on Linux `sync` runs first. The
    /// device must exist (not checked on Windows) and open for writing; a
    /// refused permission is reported as such, and on Windows a missing
    /// device too. The source is then copied in chunks (512 KiB on Windows,
    /// 1 MiB elsewhere) with a progress report each time 500 ms have passed
    /// since the last one, and a final report with no speed. The device is
    /// flushed, then ejected on macOS or followed by `sync` on Linux. An I/O
    /// error at any point stops the flash with that error.
    pub fn flash(&self, platform: Platform, state: FlashState, event: FlashEvent) -> (r: (
        FlashState,
        FlashAction,
    ))
        requires
            wf_state(state),
            expects(state, event),
        ensures
            wf_state(r.0),
            self.step_ok(platform, state, event, r),
    {
        let chunk: usize = if platform == Platform::Windows {
            WINDOWS_CHUNK_SIZE
        } else {
            CHUNK_SIZE
        };
        match state {
            FlashState::Start => (
                FlashState::InspectingSource,
                FlashAction::InspectSource(self.source_path.clone()),
            ),
            FlashState::InspectingSource => match event {
                FlashEvent::SourceInspected { exists, length } => {
                    if !exists {
                        return (
                            FlashState::Done,
                            FlashAction::Finish(
                                Err(FlashError::SourceNotFound(self.source_path.clone())),
                            ),
                        );
                    }
                    match length {
                        Err(e) => (FlashState::Done, FlashAction::Finish(Err(FlashError::Io(e)))),
                        Ok(total) => match platform {
                            Platform::MacOs => (
                                FlashState::Unmounting { total },
                                FlashAction::UnmountDisk(self.dest_path.clone()),
                            ),
                            Platform::Linux => (FlashState::SyncingBefore { total }, FlashAction::Sync),
                            Platform::Windows => (
                                FlashState::OpeningDestination {
                                    total,
                                    path: self.dest_path.clone(),
                                },
                                FlashAction::OpenDestination(self.dest_path.clone()),
                            ),
                            Platform::Other => (
                                FlashState::Done,
                                FlashAction::Finish(
                                    Err(FlashError::Io(unsupported_platform_error())),
                                ),
                            ),
                        },
                    }
                },
                _ => (FlashState::Done, FlashAction::Finish(Ok(()))),
            },
            FlashState::Unmounting { total } => match event {
                FlashEvent::UnmountFinished(out) => match out {
                    Err(m) => (
                        FlashState::Done,
                        FlashAction::Finish(Err(FlashError::UnmountFailed(m))),
                    ),
                    Ok((success, stderr)) => {
                        if !success {
                            (
                                FlashState::Done,
                                FlashAction::Finish(Err(FlashError::UnmountFailed(stderr))),
                            )
                        } else {
                            let raw = raw_device_path_for(self.dest_path.as_str());
                            let action = FlashAction::CheckDestination(raw.clone());
                            (FlashState::CheckingDestination { total, path: raw }, action)
                        }
                    },
                },
                _ => (FlashState::Done, FlashAction::Finish(Ok(()))),
            },
            FlashState::SyncingBefore { total } => (
                FlashState::CheckingDestination { total, path: self.dest_path.clone() },
                FlashAction::CheckDestination(self.dest_path.clone()),
            ),
            FlashState::CheckingDestination { total, path } => match event {
                FlashEvent::DestinationChecked { exists } => {
                    if exists {
                        let action = FlashAction::OpenDestination(path.clone());
                        (FlashState::OpeningDestination { total, path }, action)
                    } else {
                        (
                            FlashState::Done,
                            FlashAction::Finish(Err(FlashError::DestinationNotFound(path))),
                        )
                    }
                },
                _ => (FlashState::Done, FlashAction::Finish(Ok(()))),
            },
            FlashState::OpeningDestination { total, path } => match event {
                FlashEvent::DestinationOpened(opened) => match opened {
                    Ok(()) => (
                        FlashState::OpeningSource { total },
                        FlashAction::OpenSource(self.source_path.clone()),
                    ),
                    Err((failure, e)) => match failure {
                        OpenFailure::PermissionDenied => (
                            FlashState::Done,
                            FlashAction::Finish(Err(FlashError::PermissionDenied(path))),
                        ),
                        OpenFailure::NotFound => {
                            if platform == Platform::Windows {
                                (
                                    FlashState::Done,
                                    FlashAction::Finish(Err(FlashError::DestinationNotFound(path))),
                                )
                            } else {
                                (FlashState::Done, FlashAction::Finish(Err(FlashError::Io(e))))
                            }
                        },
                        OpenFailure::Other => (
                            FlashState::Done,
                            FlashAction::Finish(Err(FlashError::Io(e))),
                        ),
                    },
                },
                _ => (FlashState::Done, FlashAction::Finish(Ok(()))),
            },
            FlashState::OpeningSource { total } => match event {
                FlashEvent::SourceOpened(opened) => match opened {
                    Ok(()) => (
                        FlashState::Reading { total, written: 0, since_last: 0 },
                        FlashAction::Read(chunk),
                    ),
                    Err(e) => (FlashState::Done, FlashAction::Finish(Err(FlashError::Io(e)))),
                },
                _ => (FlashState::Done, FlashAction::Finish(Ok(()))),
            },
            FlashState::Reading { total, written, since_last } => match event {
                FlashEvent::ChunkRead(read) => match read {
                    Err(e) => (FlashState::Done, FlashAction::Finish(Err(FlashError::Io(e)))),
                    Ok(n) => {
                        if n == 0 {
                            (
                                FlashState::FinalReport { total, written },
                                FlashAction::Report {
                                    bytes_written: written,
                                    total_bytes: total,
                                    speed: SpeedSample::Zero,
                                },
                            )
                        } else {
                            (
                                FlashState::Writing { total, written, since_last, pending: n },
                                FlashAction::Write(n),
                            )
                        }
                    },
                },
                _ => (FlashState::Done, FlashAction::Finish(Ok(()))),
            },
            FlashState::Writing { total, written, since_last, pending } => match event {
                FlashEvent::ChunkWritten { result, elapsed_nanos } => match result {
                    Err(e) => (FlashState::Done, FlashAction::Finish(Err(FlashError::Io(e)))),
                    Ok(()) => {
                        let now_written = written + pending as u64;
                        let now_since = since_last + pending as u64;
                        if elapsed_nanos >= PROGRESS_INTERVAL_NANOS {
                            (
                                FlashState::Reporting { total, written: now_written },
                                FlashAction::Report {
                                    bytes_written: now_written,
                                    total_bytes: total,
                                    speed: SpeedSample::Measured { bytes: now_since, elapsed_nanos },
                                },
                            )
                        } else {
                            (
                                FlashState::Reading {
                                    total,
                                    written: now_written,
                                    since_last: now_since,
                                },
                                FlashAction::Read(chunk),
                            )
                        }
                    },
                },
                _ => (FlashState::Done, FlashAction::Finish(Ok(()))),
            },
            FlashState::Reporting { total, written } => (
                FlashState::Reading { total, written, since_last: 0 },
                FlashAction::Read(chunk),
            ),
            FlashState::FinalReport { .. } => (FlashState::Flushing, FlashAction::Flush),
            FlashState::Flushing => match event {
                FlashEvent::Flushed(flushed) => match flushed {
                    Err(e) => (FlashState::Done, FlashAction::Finish(Err(FlashError::Io(e)))),
                    Ok(()) => match platform {
                        Platform::MacOs => (
                            FlashState::Ejecting,
                            FlashAction::EjectDisk(self.dest_path.clone()),
                        ),
                        Platform::Linux => (FlashState::SyncingAfter, FlashAction::Sync),
                        _ => (FlashState::Done, FlashAction::Finish(Ok(()))),
                    },
                },
                _ => (FlashState::Done, FlashAction::Finish(Ok(()))),
            },
            FlashState::Ejecting => (FlashState::Done, FlashAction::Finish(Ok(()))),
            FlashState::SyncingAfter => (FlashState::Done, FlashAction::Finish(Ok(()))),
            FlashState::Done => (FlashState::Done, FlashAction::Finish(Ok(()))),
        }
    }
}


// ── Whole runs ──────────────────────────────────────────────────────────────

/// A run: each entry is a state, the event it got and the step taken from
/// it (next state and action); each step is one that [`Flasher::flash`]
/// takes, and each state is the one the step before reached.
pub open spec fn is_run(f: Flasher, p: Platform, t: Seq<(FlashState, FlashEvent, (FlashState, FlashAction))>) -> bool {
    &&& forall|i: int|
        0 <= i < t.len() ==> wf_state((#[trigger] t[i]).0) && expects(t[i].0, t[i].1) && f.step_ok(
            p,
            t[i].0,
            t[i].1,
            t[i].2,
        )
    &&& forall|i: int| 1 <= i < t.len() ==> (#[trigger] t[i]).0 == t[i - 1].2.0
}

/// The bytes an action writes.
pub open spec fn written_by(a: FlashAction) -> nat {
    match a {
        FlashAction::Write(n) => n as nat,
        _ => 0,
    }
}

/// The bytes written by the actions of the first `i` steps.
pub open spec fn writes_upto(t: Seq<(FlashState, FlashEvent, (FlashState, FlashAction))>, i: int) -> nat
    decreases i,
{
    if i <= 0 || t.len() < i {
        0
    } else {
        writes_upto(t, i - 1) + written_by(t[i - 1].2.1)
    }
}

/// The copy has finished: flushing, ejecting, syncing, or done.
pub open spec fn after_copy(s: FlashState) -> bool {
    s is Flushing || s is Ejecting || s is SyncingAfter || s is Done
}

/// `s` is a state of the copy of `total` bytes after `w` bytes were handed
/// to writes, or a state after it.
pub open spec fn copy_state(s: FlashState, total: u64, w: nat) -> bool {
    match s {
        FlashState::Reading { total: t, written, .. } => t == total && written == w,
        FlashState::Writing { total: t, written, pending, .. } => t == total && written + pending == w,
        FlashState::Reporting { total: t, written } => t == total && written == w,
        FlashState::FinalReport { total: t, written } => t == total && written == w,
        _ => after_copy(s),
    }
}

proof fn lemma_step_copy(
    f: Flasher,
    p: Platform,
    s: FlashState,
    e: FlashEvent,
    r: (FlashState, FlashAction),
    total: u64,
    w: nat,
)
    requires
        wf_state(s),
        expects(s, e),
        f.step_ok(p, s, e, r),
        copy_state(s, total, w),
    ensures
        copy_state(r.0, total, w + written_by(r.1)),
        r.1 matches FlashAction::Report { bytes_written, total_bytes, .. } ==> bytes_written == w
            && total_bytes == total,
        r.1 matches FlashAction::Report { speed: SpeedSample::Zero, .. } ==> r.0 is FinalReport,
        r.1 is Read ==> r.1 == FlashAction::Read(chunk_size(p)),
        r.1 is Flush ==> after_copy(r.0),
        after_copy(s) ==> after_copy(r.0) && !(r.1 is Read || r.1 is Write || r.1 is Report),
        r.1 is Finish ==> r.0 is Done,
{
}

proof fn lemma_writes_upto_monotone(t: Seq<(FlashState, FlashEvent, (FlashState, FlashAction))>, i: int, j: int)
    requires
        0 <= i <= j <= t.len(),
    ensures
        writes_upto(t, i) <= writes_upto(t, j),
    decreases j - i,
{
    if i < j {
        lemma_writes_upto_monotone(t, i, j - 1);
    }
}

proof fn lemma_run_copy(
    f: Flasher,
    p: Platform,
    t: Seq<(FlashState, FlashEvent, (FlashState, FlashAction))>,
    total: u64,
    i: int,
)
    requires
        is_run(f, p, t),
        0 <= i < t.len(),
        t[0].0 == (FlashState::Reading { total, written: 0, since_last: 0 }),
    ensures
        copy_state(t[i].0, total, writes_upto(t, i)),
        copy_state(t[i].2.0, total, writes_upto(t, i + 1)),
    decreases i,
{
    assert(wf_state(t[i].0) && expects(t[i].0, t[i].1) && f.step_ok(p, t[i].0, t[i].1, t[i].2));
    if i > 0 {
        lemma_run_copy(f, p, t, total, i - 1);
        assert(t[i].0 == t[i - 1].2.0);
    }
    lemma_step_copy(f, p, t[i].0, t[i].1, t[i].2, total, writes_upto(t, i));
}

proof fn lemma_run_after_copy(
    f: Flasher,
    p: Platform,
    t: Seq<(FlashState, FlashEvent, (FlashState, FlashAction))>,
    i: int,
    j: int,
)
    requires
        is_run(f, p, t),
        0 <= i < j < t.len(),
        after_copy(t[i].2.0),
    ensures
        after_copy(t[j].2.0),
        !(t[j].2.1 is Read || t[j].2.1 is Write || t[j].2.1 is Report),
    decreases j - i,
{
    if j - 1 > i {
        lemma_run_after_copy(f, p, t, i, j - 1);
    }
    assert(t[j].0 == t[j - 1].2.0);
    assert(wf_state(t[j].0) && expects(t[j].0, t[j].1) && f.step_ok(p, t[j].0, t[j].1, t[j].2));
    lemma_step_copy(f, p, t[j].0, t[j].1, t[j].2, 0, 0);
}

/// A whole copy, from the first read of the source on: every progress
/// report carries the bytes handed to writes so far and the source's length,
/// so reports never go back; every read asks for the platform's chunk size;
/// the report with no speed (the source is exhausted) is followed by the
/// flush, and after the flush nothing is read, written or reported; a
/// finishing step, success or error, ends the run.
pub proof fn law_copy_run(
    f: Flasher,
    p: Platform,
    t: Seq<(FlashState, FlashEvent, (FlashState, FlashAction))>,
    total: u64,
)
    requires
        is_run(f, p, t),
        t.len() > 0,
        t[0].0 == (FlashState::Reading { total, written: 0, since_last: 0 }),
    ensures
        forall|i: int|
            0 <= i < t.len() ==> ((#[trigger] t[i]).2.1 matches FlashAction::Report {
                bytes_written,
                total_bytes,
                ..
            } ==> bytes_written == writes_upto(t, i) && total_bytes == total),
        forall|i: int, j: int| 0 <= i <= j <= t.len() ==> #[trigger] writes_upto(t, i) <= #[trigger] writes_upto(t, j),
        forall|i: int| 0 <= i < t.len() && (#[trigger] t[i]).2.1 is Read ==> t[i].2.1 == FlashAction::Read(chunk_size(p)),
        forall|i: int|
            0 <= i < t.len() - 1 && ((#[trigger] t[i]).2.1 matches FlashAction::Report {
                speed: SpeedSample::Zero,
                ..
            }) ==> t[i + 1].2.1 is Flush,
        forall|i: int, j: int|
            0 <= i < j < t.len() && (#[trigger] t[i]).2.1 is Flush ==> !((#[trigger] t[j]).2.1 is Read
                || t[j].2.1 is Write || t[j].2.1 is Report),
        forall|i: int| 0 <= i < t.len() && (#[trigger] t[i]).2.1 is Finish ==> i == t.len() - 1,
{
    assert forall|i: int| 0 <= i < t.len() implies {
        &&& ((#[trigger] t[i]).2.1 matches FlashAction::Report { bytes_written, total_bytes, .. }
            ==> bytes_written == writes_upto(t, i) && total_bytes == total)
        &&& (t[i].2.1 is Read ==> t[i].2.1 == FlashAction::Read(chunk_size(p)))
        &&& (i < t.len() - 1 && (t[i].2.1 matches FlashAction::Report { speed: SpeedSample::Zero, .. })
            ==> t[i + 1].2.1 is Flush)
        &&& (t[i].2.1 is Finish ==> i == t.len() - 1)
    } by {
        lemma_run_copy(f, p, t, total, i);
        assert(wf_state(t[i].0) && expects(t[i].0, t[i].1) && f.step_ok(p, t[i].0, t[i].1, t[i].2));
        lemma_step_copy(f, p, t[i].0, t[i].1, t[i].2, total, writes_upto(t, i));
        if i < t.len() - 1 {
            assert(t[i + 1].0 == t[i].2.0);
            assert(expects(t[i + 1].0, t[i + 1].1));
        }
    }
    assert forall|i: int, j: int| 0 <= i <= j <= t.len() implies #[trigger] writes_upto(t, i)
        <= #[trigger] writes_upto(t, j) by {
        lemma_writes_upto_monotone(t, i, j);
    }
    assert forall|i: int, j: int|
        0 <= i < j < t.len() && (#[trigger] t[i]).2.1 is Flush implies !((#[trigger] t[j]).2.1 is Read
        || t[j].2.1 is Write || t[j].2.1 is Report) by {
        assert(wf_state(t[i].0) && expects(t[i].0, t[i].1) && f.step_ok(p, t[i].0, t[i].1, t[i].2));
        lemma_run_copy(f, p, t, total, i);
        lemma_step_copy(f, p, t[i].0, t[i].1, t[i].2, total, writes_upto(t, i));
        lemma_run_after_copy(f, p, t, i, j);
    }
}

} // verus!
