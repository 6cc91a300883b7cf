//! Locating the boot partition of a raw disk image and deciding what to read
//! from and write to it. The file and FAT work itself is done by the caller.
use std::collections::HashMap;
use vstd::prelude::*;
use vstd::utf8::{decode_utf8, encode_utf8, valid_utf8};

use crate::manifest::{fill, fill_chars, map_entries, Field, Manifest, ManifestError, Step, WriteRule};
use crate::text::chars_of;

pub use crate::manifest::substitute;

verus! {

// ── Error ───────────────────────────────────────────────────────────────────

#[derive(Debug)]
pub enum PatcherError {
    Io(std::io::Error),
    InvalidImage(String),
    Fat(String),
    Manifest(ManifestError),
}

// ── MBR ─────────────────────────────────────────────────────────────────────

/// Byte offset in the image of the first partition entry's LBA start field:
/// the partition table starts at 446 and the field is at byte 8 of the entry.
pub const MBR_FIRST_LBA_OFFSET: u64 = 454;

/// Size of a sector in bytes.
pub const SECTOR_SIZE: u64 = 512;

/// The little-endian `u32` held by four bytes.
pub open spec fn le_u32(b: Seq<u8>) -> nat {
    (b[0] as nat) + (b[1] as nat) * 256 + (b[2] as nat) * 65536 + (b[3] as nat) * 16777216
}

/// Byte offset of the boot partition, from the four bytes of the first
/// partition entry's LBA start (little endian).
pub fn boot_partition_offset(lba_bytes: [u8; 4]) -> (r: Result<u64, PatcherError>)
    ensures
        match r {
            Ok(off) => le_u32(lba_bytes@) != 0 && off == le_u32(lba_bytes@) * 512,
            Err(PatcherError::InvalidImage(m)) => le_u32(lba_bytes@) == 0
                && m@ == "MBR first partition entry has LBA start == 0"@,
            Err(_) => false,
        },
{
    let lba: u64 = (lba_bytes[0] as u64) + (lba_bytes[1] as u64) * 256 + (lba_bytes[2] as u64)
        * 65536 + (lba_bytes[3] as u64) * 16777216;
    if lba == 0 {
        return Err(
            PatcherError::InvalidImage("MBR first partition entry has LBA start == 0".to_owned()),
        );
    }
    Ok(lba * 512)
}

// ── Window onto the partition ───────────────────────────────────────────────

/// A position inside the partition that starts at byte `base` of the image.
pub struct PartitionCursor {
    pub base: u64,
    pub pos: u64,
}

/// How a seek is measured.
pub enum SeekTarget {
    Start(u64),
    Current(i64),
}

impl PartitionCursor {
    pub fn new(base: u64) -> (r: PartitionCursor)
        ensures
            r.base == base,
            r.pos == 0,
    {
        PartitionCursor { base, pos: 0 }
    }

    /// The byte of the image at the cursor.
    pub fn absolute(&self) -> (r: u64)
        requires
            self.base + self.pos <= u64::MAX,
        ensures
            r == self.base + self.pos,
    {
        self.base + self.pos
    }

    /// Moves past `n` bytes just read or written.
    pub fn advance(&mut self, n: usize)
        requires
            old(self).pos + n <= u64::MAX,
        ensures
            final(self).base == old(self).base,
            final(self).pos == old(self).pos + n,
    {
        self.pos = self.pos + n as u64;
    }

    /// Seeks relative to the start or to the current position; a position
    /// before the start becomes the start.
    pub fn seek(&mut self, target: SeekTarget) -> (r: u64)
        requires
            match target {
                SeekTarget::Start(_) => true,
                SeekTarget::Current(n) => old(self).pos <= i64::MAX && i64::MIN <= old(self).pos
                    + n <= i64::MAX,
            },
        ensures
            final(self).base == old(self).base,
            r == final(self).pos,
            final(self).pos == match target {
                SeekTarget::Start(n) => n as int,
                SeekTarget::Current(n) => if old(self).pos + n < 0 {
                    0
                } else {
                    old(self).pos + n
                },
            },
    {
        self.pos = match target {
            SeekTarget::Start(n) => n,
            SeekTarget::Current(n) => {
                let p: i64 = self.pos as i64 + n;
                if p < 0 {
                    0
                } else {
                    p as u64
                }
            },
        };
        self.pos
    }

    /// Seeks relative to the end, given the absolute image position `abs`
    /// that the end-relative seek reached; a position before the partition
    /// start is refused.
    pub fn seek_from_end(&mut self, abs: u64) -> (r: Option<u64>)
        ensures
            final(self).base == old(self).base,
            match r {
                Some(p) => abs >= old(self).base && p == abs - old(self).base && final(self).pos
                    == p,
                None => abs < old(self).base && final(self).pos == old(self).pos,
            },
    {
        if abs < self.base {
            return None;
        }
        self.pos = abs - self.base;
        Some(self.pos)
    }
}

// ── ImagePatcher ────────────────────────────────────────────────────────────

/// A raw `.img` file and the byte offset of its FAT32 boot partition.
pub struct ImagePatcher {
    path: String,
    boot_offset: u64,
}

/// `String::from_utf8`: `Some` exactly for valid UTF-8, holding the decoded
/// characters.
#[verifier::external_body]
fn utf8_to_string(data: Vec<u8>) -> (r: Option<String>)
    ensures
        r is Some <==> valid_utf8(data@),
        r matches Some(s) ==> s@ == decode_utf8(data@),
{
    String::from_utf8(data).ok()
}

/// What reading a file of the boot partition gave.
pub enum FileRead {
    /// The FAT file system could not be mounted.
    MountFailed(std::io::Error),
    /// The file could not be opened; the error's message.
    OpenFailed(String),
    /// Its bytes could not be read.
    ReadFailed(std::io::Error),
    /// Its bytes.
    Read(Vec<u8>),
}

/// What writing a file of the boot partition gave.
pub enum FileWrite {
    /// The FAT file system could not be mounted.
    MountFailed(std::io::Error),
    /// The file could not be created; the error's message.
    CreateFailed(String),
    /// Truncating it or writing its bytes failed.
    WriteFailed(std::io::Error),
    /// The file now holds the bytes.
    Written,
}

/// `cannot <verb> '<path>': <message>`.
pub open spec fn fat_message(verb: Seq<char>, path: Seq<char>, message: Seq<char>) -> Seq<char> {
    "cannot "@ + verb + " '"@ + path + "': "@ + message
}

fn fat_error(verb: &str, path: &str, message: &str) -> (r: PatcherError)
    ensures
        r matches PatcherError::Fat(m) && m@ == fat_message(verb@, path@, message@),
{
    let mut m = "cannot ".to_owned();
    m.append(verb);
    m.append(" '");
    m.append(path);
    m.append("': ");
    m.append(message);
    PatcherError::Fat(m)
}

/// A file to write to the boot partition: its path and its bytes.
pub struct PendingWrite {
    pub path: String,
    pub data: Vec<u8>,
}

/// The UTF-8 bytes of `s`.
fn utf8_bytes(s: &str) -> (r: Vec<u8>)
    ensures
        r@ == encode_utf8(s@),
{
    let b = s.as_bytes();
    let mut r: Vec<u8> = Vec::new();
    let mut i: usize = 0;
    while i < b.len()
        invariant
            i <= b@.len(),
            b@ == encode_utf8(s@),
            r@ == b@.subrange(0, i as int),
        decreases b.len() - i,
    {
        r.push(b[i]);
        i = i + 1;
    }
    r
}

/// The writes of the rules `rules`, each template filled in one pass from
/// the values `m` and the fallbacks of the step's fields `fs`, as
/// `(path, UTF-8 bytes)`.
pub open spec fn writes_for(rules: Seq<WriteRule>, m: Map<String, String>, fs: Seq<Field>) -> Seq<
    (Seq<char>, Seq<u8>),
> {
    rules.map_values(|w: WriteRule| (w.path@, encode_utf8(fill(w.template@, m, fs, 0))))
}

/// The writes of all steps of a manifest, step after step.
pub open spec fn manifest_writes_for(steps: Seq<Step>, m: Map<String, String>) -> Seq<
    (Seq<char>, Seq<u8>),
>
    decreases steps.len(),
{
    if steps.len() == 0 {
        Seq::empty()
    } else {
        manifest_writes_for(steps.drop_last(), m) + writes_for(
            steps.last().writes@,
            m,
            steps.last().fields@,
        )
    }
}

impl ImagePatcher {
    /// The patcher of the image at `path`, from the four bytes of the first
    /// partition entry's LBA start.
    pub fn open(path: String, lba_bytes: [u8; 4]) -> (r: Result<ImagePatcher, PatcherError>)
        ensures
            match r {
                Ok(p) => le_u32(lba_bytes@) != 0 && p.spec_path() == path@ && p.spec_boot_offset()
                    == le_u32(lba_bytes@) * 512,
                Err(PatcherError::InvalidImage(m)) => le_u32(lba_bytes@) == 0
                    && m@ == "MBR first partition entry has LBA start == 0"@,
                Err(_) => false,
            },
    {
        match boot_partition_offset(lba_bytes) {
            Ok(boot_offset) => Ok(ImagePatcher { path, boot_offset }),
            Err(e) => Err(e),
        }
    }

    pub closed spec fn spec_path(&self) -> Seq<char> {
        self.path@
    }

    pub closed spec fn spec_boot_offset(&self) -> u64 {
        self.boot_offset
    }

    /// Path of the image file.
    pub fn path(&self) -> (r: &str)
        ensures
            r@ == self.spec_path(),
    {
        self.path.as_str()
    }

    /// Byte offset of the boot partition in the image.
    pub fn boot_offset(&self) -> (r: u64)
        ensures
            r == self.spec_boot_offset(),
    {
        self.boot_offset
    }

    /// Decides what reading the file `path` of the boot partition gave: its
    /// bytes, a FAT error naming the file when it could not be opened, or
    /// the I/O error.
    pub fn read_file(&self, path: &str, outcome: FileRead) -> (r: Result<Vec<u8>, PatcherError>)
        ensures
            match outcome {
                FileRead::MountFailed(e) => r == Err::<Vec<u8>, PatcherError>(PatcherError::Io(e)),
                FileRead::OpenFailed(m) => r matches Err(PatcherError::Fat(x)) && x@ == fat_message(
                    "open"@,
                    path@,
                    m@,
                ),
                FileRead::ReadFailed(e) => r == Err::<Vec<u8>, PatcherError>(PatcherError::Io(e)),
                FileRead::Read(data) => r == Ok::<Vec<u8>, PatcherError>(data),
            },
    {
        match outcome {
            FileRead::MountFailed(e) => Err(PatcherError::Io(e)),
            FileRead::OpenFailed(m) => Err(fat_error("open", path, m.as_str())),
            FileRead::ReadFailed(e) => Err(PatcherError::Io(e)),
            FileRead::Read(data) => Ok(data),
        }
    }

    /// Decides what writing the file `path` of the boot partition gave:
    /// success, a FAT error naming the file when it could not be created, or
    /// the I/O error.
    pub fn write_file(&self, path: &str, outcome: FileWrite) -> (r: Result<(), PatcherError>)
        ensures
            match outcome {
                FileWrite::MountFailed(e) => r == Err::<(), PatcherError>(PatcherError::Io(e)),
                FileWrite::CreateFailed(m) => r matches Err(PatcherError::Fat(x)) && x@ == fat_message(
                    "create"@,
                    path@,
                    m@,
                ),
                FileWrite::WriteFailed(e) => r == Err::<(), PatcherError>(PatcherError::Io(e)),
                FileWrite::Written => r is Ok,
            },
    {
        match outcome {
            FileWrite::MountFailed(e) => Err(PatcherError::Io(e)),
            FileWrite::CreateFailed(m) => Err(fat_error("create", path, m.as_str())),
            FileWrite::WriteFailed(e) => Err(PatcherError::Io(e)),
            FileWrite::Written => Ok(()),
        }
    }

    /// Decides what reading `sunburn.json` gave: the manifest text, `None`
    /// when the file could not be opened on the FAT partition (a basic-mode
    /// image), or the error.
    pub fn read_manifest(&self, file: Result<Vec<u8>, PatcherError>) -> (r: Result<
        Option<String>,
        PatcherError,
    >)
        ensures
            match file {
                Ok(data) => match r {
                    Ok(Some(s)) => valid_utf8(data@) && s@ == decode_utf8(data@),
                    Err(PatcherError::InvalidImage(m)) => !valid_utf8(data@)
                        && m@ == "sunburn.json is not valid UTF-8"@,
                    _ => false,
                },
                Err(PatcherError::Fat(_)) => r matches Ok(None),
                Err(e) => r == Err::<Option<String>, PatcherError>(e),
            },
    {
        match file {
            Ok(data) => match utf8_to_string(data) {
                Some(s) => Ok(Some(s)),
                None => Err(PatcherError::InvalidImage("sunburn.json is not valid UTF-8".to_owned())),
            },
            Err(PatcherError::Fat(_)) => Ok(None),
            Err(e) => Err(e),
        }
    }

    /// The files that the write rules of `step` produce, in the order of the
    /// rules: each template filled in one pass, a token `{{field_id}}` taking
    /// the value collected in `values`, or for a field of the step that was
    /// not filled (hidden, or left out) its default or the empty text, and
    /// any other token kept; the text is UTF-8 encoded.
    pub fn apply_writes(&self, step: &Step, values: &HashMap<String, String>) -> (r: Vec<
        PendingWrite,
    >)
        ensures
            r@.map_values(|w: PendingWrite| (w.path@, w.data@)) == writes_for(
                step.writes@,
                values@,
                step.fields@,
            ),
    {
        let entries = map_entries(values);
        let mut r: Vec<PendingWrite> = Vec::new();
        let mut i: usize = 0;
        while i < step.writes.len()
            invariant
                i <= step.writes@.len(),
                crate::manifest::is_walk(values@, entries@),
                r@.map_values(|w: PendingWrite| (w.path@, w.data@)) == writes_for(
                    step.writes@.take(i as int),
                    values@,
                    step.fields@,
                ),
            decreases step.writes.len() - i,
        {
            let rule = &step.writes[i];
            let filled = fill_chars(
                chars_of(rule.template.as_str()).as_slice(),
                &entries,
                &step.fields,
                Ghost(values@),
            );
            let content = crate::text::string_from_chars(filled.as_slice());
            let data = utf8_bytes(content.as_str());
            let ghost before = r@;
            r.push(PendingWrite { path: rule.path.clone(), data });
            assert(step.writes@.take(i + 1) =~= step.writes@.take(i as int).push(step.writes@[i as int]));
            assert(r@.map_values(|w: PendingWrite| (w.path@, w.data@)) =~= before.map_values(
                |w: PendingWrite| (w.path@, w.data@),
            ).push((rule.path@, data@)));
            i = i + 1;
        }
        assert(step.writes@.take(i as int) =~= step.writes@);
        r
    }

    /// The files that all steps of `manifest` produce, step after step, each
    /// step as [`ImagePatcher::apply_writes`] gives them.
    pub fn manifest_writes(&self, manifest: &Manifest, values: &HashMap<String, String>) -> (r: Vec<
        PendingWrite,
    >)
        ensures
            r@.map_values(|w: PendingWrite| (w.path@, w.data@)) == manifest_writes_for(
                manifest.steps@,
                values@,
            ),
    {
        let mut r: Vec<PendingWrite> = Vec::new();
        let mut i: usize = 0;
        while i < manifest.steps.len()
            invariant
                i <= manifest.steps@.len(),
                r@.map_values(|w: PendingWrite| (w.path@, w.data@)) == manifest_writes_for(
                    manifest.steps@.take(i as int),
                    values@,
                ),
            decreases manifest.steps.len() - i,
        {
            let mut ws = self.apply_writes(&manifest.steps[i], values);
            let ghost before = r@;
            let ghost added = ws@;
            r.append(&mut ws);
            assert(manifest.steps@.take(i + 1).drop_last() =~= manifest.steps@.take(i as int));
            assert(r@.map_values(|w: PendingWrite| (w.path@, w.data@)) =~= before.map_values(
                |w: PendingWrite| (w.path@, w.data@),
            ) + added.map_values(|w: PendingWrite| (w.path@, w.data@)));
            i = i + 1;
        }
        assert(manifest.steps@.take(i as int) =~= manifest.steps@);
        r
    }
}

/// What a write stores reads back unchanged: the bytes of every file that
/// [`ImagePatcher::apply_writes`] produces are valid UTF-8 and decode to the
/// substituted template, so [`ImagePatcher::read_manifest`] accepts them and
/// returns that text.
pub proof fn law_written_text_reads_back(
    rules: Seq<WriteRule>,
    m: Map<String, String>,
    fs: Seq<Field>,
)
    ensures
        forall|i: int|
            0 <= i < rules.len() ==> valid_utf8(#[trigger] writes_for(rules, m, fs)[i].1)
                && decode_utf8(writes_for(rules, m, fs)[i].1) == fill(rules[i].template@, m, fs, 0),
{
    assert forall|i: int| 0 <= i < rules.len() implies valid_utf8(
        #[trigger] writes_for(rules, m, fs)[i].1,
    ) && decode_utf8(writes_for(rules, m, fs)[i].1) == fill(rules[i].template@, m, fs, 0) by {
        let t = fill(rules[i].template@, m, fs, 0);
        vstd::utf8::encode_utf8_valid_utf8(t);
        vstd::utf8::encode_utf8_decode_utf8(t);
    }
}

} // verus!
