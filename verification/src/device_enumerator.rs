//! Removable drives, read from the listings of `diskutil` (macOS),
//! `lsblk` (Linux) and `wmic` (Windows). Running the tools is left to the
//! caller; this module turns their output into [`Drive`]s.
use vstd::prelude::*;

use crate::json::{as_array as json_as_array, as_str, index, parse_json, JsonValue};
use crate::plist_value::{
    as_array as plist_as_array, as_dictionary, as_string, as_unsigned_integer, dict_get,
    dict_value, parse_plist, PlistValue,
};
use crate::text::{
    chars_of, decimal, decimal_chars, eq_ignore_ascii_case, eq_ignore_ascii_case_chars, lines,
    lines_of, parse_u64, parse_u64_chars, push_all, split_chars, split_from, string_from_chars,
    trim, trim_chars, views,
};

verus! {

/// A removable drive.
#[derive(Debug, Clone)]
pub struct Drive {
    pub path: String,
    pub display_name: String,
    pub size_bytes: u64,
    pub removable: bool,
}

/// A [`Drive`] as plain values.
pub struct DriveView {
    pub path: Seq<char>,
    pub display_name: Seq<char>,
    pub size_bytes: u64,
    pub removable: bool,
}

impl View for Drive {
    type V = DriveView;

    open spec fn view(&self) -> DriveView {
        DriveView {
            path: self.path@,
            display_name: self.display_name@,
            size_bytes: self.size_bytes,
            removable: self.removable,
        }
    }
}

/// The views of a sequence of drives.
pub open spec fn drive_views(d: Seq<Drive>) -> Seq<DriveView> {
    d.map_values(|x: Drive| x@)
}

#[derive(Debug)]
pub enum EnumeratorError {
    /// The listing tool could not be run.
    Subprocess(std::io::Error),
    /// Its output could not be read.
    Parse(String),
}

// ── Display names ───────────────────────────────────────────────────────────

/// `size` in gigabytes (10^9 bytes), rounded to the nearest whole number,
/// ties to the even one.
pub open spec fn gigabytes(size: nat) -> nat {
    let q = size / 1_000_000_000;
    let r = size % 1_000_000_000;
    if r > 500_000_000 || (r == 500_000_000 && q % 2 == 1) {
        q + 1
    } else {
        q
    }
}

/// `"<label> (<N> GB)"`.
pub open spec fn display_name(label: Seq<char>, size: u64) -> Seq<char> {
    label + " ("@ + decimal(gigabytes(size as nat)) + " GB)"@
}

pub fn gigabytes_exec(size: u64) -> (r: u64)
    ensures
        r == gigabytes(size as nat),
{
    let q = size / 1_000_000_000;
    let r = size % 1_000_000_000;
    if r > 500_000_000 || (r == 500_000_000 && q % 2 == 1) {
        q + 1
    } else {
        q
    }
}

/// `"<label> (<N> GB)"` with `N` the size in whole gigabytes.
pub fn display_name_for(label: &[char], size: u64) -> (r: String)
    ensures
        r@ == display_name(label@, size),
{
    let mut v: Vec<char> = Vec::new();
    push_all(&mut v, label);
    push_all(&mut v, chars_of(" (").as_slice());
    push_all(&mut v, decimal_chars(gigabytes_exec(size)).as_slice());
    push_all(&mut v, chars_of(" GB)").as_slice());
    string_from_chars(v.as_slice())
}

/// `"/dev/<name>"`.
pub open spec fn dev_path(name: Seq<char>) -> Seq<char> {
    "/dev/"@ + name
}

fn dev_path_for(name: &[char]) -> (r: String)
    ensures
        r@ == dev_path(name@),
{
    let mut v = chars_of("/dev/");
    push_all(&mut v, name);
    string_from_chars(v.as_slice())
}

fn drive(path: String, label: &[char], size_bytes: u64) -> (r: Drive)
    ensures
        r@ == (DriveView {
            path: path@,
            display_name: display_name(label@, size_bytes),
            size_bytes,
            removable: true,
        }),
{
    Drive { path, display_name: display_name_for(label, size_bytes), size_bytes, removable: true }
}

// ── Windows: wmic CSV ───────────────────────────────────────────────────────

/// The trimmed comma-separated cells of a line.
pub open spec fn csv_cells(line: Seq<char>) -> Seq<Seq<char>> {
    split_from(line, ',', 0).map_values(|c: Seq<char>| trim(c))
}

/// The cell of `row` under the first header cell of `hdr[k..]` equal to
/// `name` ignoring ASCII case; empty when there is none. Cells past the
/// shorter of the two rows are not looked at.
pub open spec fn column(hdr: Seq<Seq<char>>, row: Seq<Seq<char>>, name: Seq<char>, k: int) -> Seq<
    char,
>
    decreases hdr.len() - k,
{
    if k < 0 || k >= hdr.len() || k >= row.len() {
        Seq::empty()
    } else if eq_ignore_ascii_case(hdr[k], name) {
        row[k]
    } else {
        column(hdr, row, name, k + 1)
    }
}

/// The drive of a data row: none when its `DeviceID` cell is empty.
pub open spec fn wmic_row(hdr: Seq<Seq<char>>, row: Seq<Seq<char>>) -> Seq<DriveView> {
    let id = column(hdr, row, "DeviceID"@, 0);
    let model = column(hdr, row, "Model"@, 0);
    let size = match parse_u64(column(hdr, row, "Size"@, 0)) {
        Some(v) => v,
        None => 0,
    };
    if id.len() == 0 {
        Seq::empty()
    } else {
        seq![
            DriveView {
                path: id,
                display_name: display_name(if model.len() == 0 { id } else { model }, size),
                size_bytes: size,
                removable: true,
            },
        ]
    }
}

/// The drives of the lines `ls[i..]`, blank lines skipped, the first
/// non-blank line being the header when `hdr` is `None`.
pub open spec fn wmic_from(ls: Seq<Seq<char>>, i: int, hdr: Option<Seq<Seq<char>>>) -> Seq<
    DriveView,
>
    decreases ls.len() - i,
{
    if i < 0 || i >= ls.len() {
        Seq::empty()
    } else if trim(ls[i]).len() == 0 {
        wmic_from(ls, i + 1, hdr)
    } else {
        match hdr {
            None => wmic_from(ls, i + 1, Some(csv_cells(trim(ls[i])))),
            Some(h) => wmic_row(h, csv_cells(trim(ls[i]))) + wmic_from(ls, i + 1, hdr),
        }
    }
}

/// The drives listed by `wmic ... /format:csv`.
pub open spec fn wmic_drives(text: Seq<char>) -> Seq<DriveView> {
    wmic_from(lines(text), 0, None)
}

fn csv_cells_exec(line: &[char]) -> (r: Vec<Vec<char>>)
    ensures
        views(r@) == csv_cells(line@),
{
    let parts = split_chars(line, ',');
    let mut r: Vec<Vec<char>> = Vec::new();
    let mut k: usize = 0;
    while k < parts.len()
        invariant
            k <= parts@.len(),
            views(parts@) == split_from(line@, ',', 0),
            views(r@) == views(parts@).take(k as int).map_values(|c: Seq<char>| trim(c)),
        decreases parts.len() - k,
    {
        let ghost before = r@;
        r.push(trim_chars(parts[k].as_slice()));
        assert(views(parts@).take(k + 1) =~= views(parts@).take(k as int).push(parts@[k as int]@));
        assert(views(r@) =~= views(before).push(trim(parts@[k as int]@)));
        k = k + 1;
    }
    assert(views(parts@).take(k as int) =~= views(parts@));
    r
}

fn column_exec<'a>(hdr: &Vec<Vec<char>>, row: &'a Vec<Vec<char>>, name: &[char]) -> (r: &'a [char])
    ensures
        r@ == column(views(hdr@), views(row@), name@, 0),
{
    let mut k: usize = 0;
    while k < hdr.len() && k < row.len()
        invariant
            column(views(hdr@), views(row@), name@, 0) == column(
                views(hdr@),
                views(row@),
                name@,
                k as int,
            ),
        decreases hdr.len() - k,
    {
        if eq_ignore_ascii_case_chars(hdr[k].as_slice(), name) {
            return row[k].as_slice();
        }
        k = k + 1;
    }
    &[]
}

fn wmic_row_exec(hdr: &Vec<Vec<char>>, row: &Vec<Vec<char>>) -> (r: Option<Drive>)
    ensures
        match r {
            Some(d) => wmic_row(views(hdr@), views(row@)) == seq![d@],
            None => wmic_row(views(hdr@), views(row@)) == Seq::<DriveView>::empty(),
        },
{
    let id = column_exec(hdr, row, chars_of("DeviceID").as_slice());
    let model = column_exec(hdr, row, chars_of("Model").as_slice());
    let size_text = column_exec(hdr, row, chars_of("Size").as_slice());
    let size: u64 = match parse_u64_chars(size_text) {
        Some(v) => v,
        None => 0,
    };
    if id.len() == 0 {
        return None;
    }
    let label = if model.len() == 0 { id } else { model };
    Some(drive(string_from_chars(id), label, size))
}

/// Parses `wmic diskdrive ... get DeviceID,Size,Model /format:csv` output.
///
/// Blank lines are skipped; the first other line is the header. In each
/// later line the `DeviceID`, `Model` and `Size` cells are found by the
/// header (ignoring ASCII case); a row with no device id is skipped, an
/// unreadable size counts as 0, and the display name uses the model, or the
/// device id when the model is empty.
pub fn parse_wmic_csv(text: &str) -> (r: Result<Vec<Drive>, EnumeratorError>)
    ensures
        r matches Ok(d) && drive_views(d@) == wmic_drives(text@),
{
    let chars = chars_of(text);
    let ls = lines_of(chars.as_slice());
    let mut drives: Vec<Drive> = Vec::new();
    let mut header: Option<Vec<Vec<char>>> = None;
    let mut i: usize = 0;
    while i < ls.len()
        invariant
            i <= ls@.len(),
            views(ls@) == lines(text@),
            drive_views(drives@) + wmic_from(
                views(ls@),
                i as int,
                match header {
                    Some(h) => Some(views(h@)),
                    None => None,
                },
            ) == wmic_drives(text@),
        decreases ls.len() - i,
    {
        let line = trim_chars(ls[i].as_slice());
        if line.len() > 0 {
            let cols = csv_cells_exec(line.as_slice());
            match &header {
                None => {
                    header = Some(cols);
                },
                Some(h) => {
                    let ghost before = drives@;
                    match wmic_row_exec(h, &cols) {
                        Some(d) => {
                            drives.push(d);
                            assert(drive_views(drives@) =~= drive_views(before) + seq![d@]);
                        },
                        None => {
                            assert(drive_views(drives@) =~= drive_views(before) + Seq::<
                                DriveView,
                            >::empty());
                        },
                    }
                },
            }
        }
        i = i + 1;
    }
    assert(drive_views(drives@) + Seq::<DriveView>::empty() =~= drive_views(drives@));
    Ok(drives)
}

// ── Linux: lsblk JSON ───────────────────────────────────────────────────────

/// The text of an optional string, empty when absent.
pub open spec fn or_empty(o: Option<Seq<char>>) -> Seq<char> {
    match o {
        Some(s) => s,
        None => Seq::empty(),
    }
}

/// The `rm` member: a boolean, the string `"1"`, or the number 1.
pub open spec fn lsblk_removable(rm: JsonValue) -> bool {
    match rm {
        JsonValue::Bool(b) => b,
        JsonValue::String(s) => s@ == "1"@,
        JsonValue::Number(n) => n.as_u64 == Some(1u64),
        _ => false,
    }
}

/// The `size` member: a number or a decimal string; 0 when unreadable.
pub open spec fn lsblk_size(v: JsonValue) -> u64 {
    match v {
        JsonValue::Number(n) => match n.as_u64 {
            Some(u) => u,
            None => 0,
        },
        JsonValue::String(s) => match parse_u64(s@) {
            Some(u) => u,
            None => 0,
        },
        _ => 0,
    }
}

/// The drive of one block device: only a removable `disk` with a name.
pub open spec fn lsblk_device(dev: JsonValue) -> Seq<DriveView> {
    let ty = or_empty(as_str(index(dev, "type"@)));
    let name = or_empty(as_str(index(dev, "name"@)));
    let model = trim(or_empty(as_str(index(dev, "model"@))));
    let size = lsblk_size(index(dev, "size"@));
    if ty != "disk"@ || !lsblk_removable(index(dev, "rm"@)) || name.len() == 0 {
        Seq::empty()
    } else {
        seq![
            DriveView {
                path: dev_path(name),
                display_name: display_name(if model.len() == 0 { name } else { model }, size),
                size_bytes: size,
                removable: true,
            },
        ]
    }
}

/// The drives of the block devices `devs[i..]`.
pub open spec fn lsblk_devices(devs: Seq<JsonValue>, i: int) -> Seq<DriveView>
    decreases devs.len() - i,
{
    if i < 0 || i >= devs.len() {
        Seq::empty()
    } else {
        lsblk_device(devs[i]) + lsblk_devices(devs, i + 1)
    }
}

/// The drives of an `lsblk -J` document, or why it has none.
pub open spec fn lsblk_drives(doc: JsonValue) -> Result<Seq<DriveView>, Seq<char>> {
    match json_as_array(index(doc, "blockdevices"@)) {
        Some(devs) => Ok(lsblk_devices(devs, 0)),
        None => Err("missing blockdevices"@),
    }
}

/// The characters of the string member `key` of `v`, empty when absent or
/// not a string.
fn text_member(v: &JsonValue, key: &str) -> (r: Vec<char>)
    ensures
        r@ == or_empty(as_str(index(*v, key@))),
{
    let k = key.to_owned();
    match v.get(&k) {
        Some(x) => match x.as_str() {
            Some(s) => chars_of(s.as_str()),
            None => Vec::new(),
        },
        None => Vec::new(),
    }
}

/// The member `key` of `v`, `None` standing for null.
fn member<'a>(v: &'a JsonValue, key: &str) -> (r: Option<&'a JsonValue>)
    ensures
        match r {
            Some(x) => index(*v, key@) == *x,
            None => index(*v, key@) == JsonValue::Null,
        },
{
    let k = key.to_owned();
    v.get(&k)
}

fn lsblk_device_exec(dev: &JsonValue) -> (r: Option<Drive>)
    ensures
        match r {
            Some(d) => lsblk_device(*dev) == seq![d@],
            None => lsblk_device(*dev) == Seq::<DriveView>::empty(),
        },
{
    let ty = text_member(dev, "type");
    if !crate::text::chars_eq(ty.as_slice(), chars_of("disk").as_slice()) {
        return None;
    }
    let removable = match member(dev, "rm") {
        Some(JsonValue::Bool(b)) => *b,
        Some(JsonValue::String(s)) => *s == "1".to_owned(),
        Some(JsonValue::Number(n)) => match n.as_u64 {
            Some(u) => u == 1,
            None => false,
        },
        _ => false,
    };
    if !removable {
        return None;
    }
    let name = text_member(dev, "name");
    if name.len() == 0 {
        return None;
    }
    let size: u64 = match member(dev, "size") {
        Some(JsonValue::Number(n)) => match n.as_u64 {
            Some(u) => u,
            None => 0,
        },
        Some(JsonValue::String(s)) => match parse_u64_chars(chars_of(s.as_str()).as_slice()) {
            Some(u) => u,
            None => 0,
        },
        _ => 0,
    };
    let model = trim_chars(text_member(dev, "model").as_slice());
    let label = if model.len() == 0 { name.as_slice() } else { model.as_slice() };
    Some(drive(dev_path_for(name.as_slice()), label, size))
}

/// The removable disks of an `lsblk -J -b -o NAME,SIZE,RM,MODEL,TYPE`
/// document.
pub fn drives_from_lsblk_document(doc: &JsonValue) -> (r: Result<Vec<Drive>, EnumeratorError>)
    ensures
        match r {
            Ok(d) => lsblk_drives(*doc) == Ok::<Seq<DriveView>, Seq<char>>(drive_views(d@)),
            Err(EnumeratorError::Parse(m)) => lsblk_drives(*doc) == Err::<Seq<DriveView>, Seq<char>>(
                m@,
            ),
            Err(_) => false,
        },
{
    let devs = match member(doc, "blockdevices") {
        Some(x) => match x.as_array() {
            Some(a) => a,
            None => {
                return Err(EnumeratorError::Parse("missing blockdevices".to_owned()));
            },
        },
        None => {
            return Err(EnumeratorError::Parse("missing blockdevices".to_owned()));
        },
    };
    let mut drives: Vec<Drive> = Vec::new();
    let mut i: usize = 0;
    while i < devs.len()
        invariant
            i <= devs@.len(),
            json_as_array(index(*doc, "blockdevices"@)) == Some(devs@),
            drive_views(drives@) + lsblk_devices(devs@, i as int) == lsblk_devices(devs@, 0),
        decreases devs.len() - i,
    {
        let ghost before = drives@;
        match lsblk_device_exec(&devs[i]) {
            Some(d) => {
                drives.push(d);
                assert(drive_views(drives@) =~= drive_views(before) + seq![d@]);
            },
            None => {
                assert(drive_views(drives@) =~= drive_views(before) + Seq::<DriveView>::empty());
            },
        }
        i = i + 1;
    }
    assert(drive_views(drives@) + Seq::<DriveView>::empty() =~= drive_views(drives@));
    Ok(drives)
}

/// Parses `lsblk -J -b -o NAME,SIZE,RM,MODEL,TYPE` output: the removable
/// block devices of type `disk` that have a name.
pub fn parse_lsblk_json(data: &[u8]) -> (r: Result<Vec<Drive>, EnumeratorError>)
    ensures
        match crate::json::json_document(data@) {
            Ok(doc) => match r {
                Ok(d) => lsblk_drives(doc) == Ok::<Seq<DriveView>, Seq<char>>(drive_views(d@)),
                Err(EnumeratorError::Parse(m)) => lsblk_drives(doc) == Err::<
                    Seq<DriveView>,
                    Seq<char>,
                >(m@),
                Err(_) => false,
            },
            Err(msg) => r matches Err(EnumeratorError::Parse(m)) && m@ == msg,
        },
{
    match parse_json(data) {
        Ok(doc) => drives_from_lsblk_document(&doc),
        Err(m) => Err(EnumeratorError::Parse(m)),
    }
}

// ── macOS: diskutil plist ───────────────────────────────────────────────────

/// The string under `key` in a dictionary.
pub open spec fn dict_string(d: Seq<(String, PlistValue)>, key: Seq<char>) -> Option<Seq<char>> {
    match dict_value(d, key, 0) {
        Some(x) => as_string(x),
        None => None,
    }
}

/// The drive of one entry of `AllDisksAndPartitions`: only a dictionary
/// with a string `DeviceIdentifier`.
pub open spec fn diskutil_disk(disk: PlistValue) -> Seq<DriveView> {
    match as_dictionary(disk) {
        None => Seq::empty(),
        Some(d) => match dict_string(d, "DeviceIdentifier"@) {
            None => Seq::empty(),
            Some(id) => {
                let size = match dict_value(d, "Size"@, 0) {
                    Some(x) => match as_unsigned_integer(x) {
                        Some(u) => u,
                        None => 0,
                    },
                    None => 0,
                };
                let media = or_empty(dict_string(d, "MediaName"@));
                seq![
                    DriveView {
                        path: dev_path(id),
                        display_name: display_name(if media.len() == 0 { id } else { media }, size),
                        size_bytes: size,
                        removable: true,
                    },
                ]
            },
        },
    }
}

/// The drives of the disks `disks[i..]`.
pub open spec fn diskutil_disks(disks: Seq<PlistValue>, i: int) -> Seq<DriveView>
    decreases disks.len() - i,
{
    if i < 0 || i >= disks.len() {
        Seq::empty()
    } else {
        diskutil_disk(disks[i]) + diskutil_disks(disks, i + 1)
    }
}

/// The drives of a `diskutil list -plist external` document, or why it has
/// none.
pub open spec fn diskutil_drives(doc: PlistValue) -> Result<Seq<DriveView>, Seq<char>> {
    match as_dictionary(doc) {
        None => Err("expected plist dictionary"@),
        Some(d) => match dict_value(d, "AllDisksAndPartitions"@, 0) {
            Some(x) => match plist_as_array(x) {
                Some(disks) => Ok(diskutil_disks(disks, 0)),
                None => Err("missing AllDisksAndPartitions"@),
            },
            None => Err("missing AllDisksAndPartitions"@),
        },
    }
}

fn diskutil_disk_exec(disk: &PlistValue) -> (r: Option<Drive>)
    ensures
        match r {
            Some(d) => diskutil_disk(*disk) == seq![d@],
            None => diskutil_disk(*disk) == Seq::<DriveView>::empty(),
        },
{
    let d = match disk {
        PlistValue::Dictionary(d) => d,
        _ => {
            return None;
        },
    };
    let id = match dict_get(d, &"DeviceIdentifier".to_owned()) {
        Some(PlistValue::String(s)) => chars_of(s.as_str()),
        _ => {
            return None;
        },
    };
    let size: u64 = match dict_get(d, &"Size".to_owned()) {
        Some(PlistValue::Integer(Some(u))) => *u,
        _ => 0,
    };
    let media = match dict_get(d, &"MediaName".to_owned()) {
        Some(PlistValue::String(s)) => chars_of(s.as_str()),
        _ => Vec::new(),
    };
    let label = if media.len() == 0 { id.as_slice() } else { media.as_slice() };
    Some(drive(dev_path_for(id.as_slice()), label, size))
}

/// The external disks of a `diskutil list -plist external` document.
pub fn drives_from_diskutil_plist(doc: &PlistValue) -> (r: Result<Vec<Drive>, EnumeratorError>)
    ensures
        match r {
            Ok(d) => diskutil_drives(*doc) == Ok::<Seq<DriveView>, Seq<char>>(drive_views(d@)),
            Err(EnumeratorError::Parse(m)) => diskutil_drives(*doc) == Err::<
                Seq<DriveView>,
                Seq<char>,
            >(m@),
            Err(_) => false,
        },
{
    let dict = match doc {
        PlistValue::Dictionary(d) => d,
        _ => {
            return Err(EnumeratorError::Parse("expected plist dictionary".to_owned()));
        },
    };
    let disks = match dict_get(dict, &"AllDisksAndPartitions".to_owned()) {
        Some(PlistValue::Array(a)) => a,
        _ => {
            return Err(EnumeratorError::Parse("missing AllDisksAndPartitions".to_owned()));
        },
    };
    let mut drives: Vec<Drive> = Vec::new();
    let mut i: usize = 0;
    while i < disks.len()
        invariant
            i <= disks@.len(),
            diskutil_drives(*doc) == Ok::<Seq<DriveView>, Seq<char>>(diskutil_disks(disks@, 0)),
            drive_views(drives@) + diskutil_disks(disks@, i as int) == diskutil_disks(disks@, 0),
        decreases disks.len() - i,
    {
        let ghost before = drives@;
        match diskutil_disk_exec(&disks[i]) {
            Some(d) => {
                drives.push(d);
                assert(drive_views(drives@) =~= drive_views(before) + seq![d@]);
            },
            None => {
                assert(drive_views(drives@) =~= drive_views(before) + Seq::<DriveView>::empty());
            },
        }
        i = i + 1;
    }
    assert(drive_views(drives@) + Seq::<DriveView>::empty() =~= drive_views(drives@));
    Ok(drives)
}

/// Parses `diskutil list -plist external` output: every disk entry with a
/// device identifier, all removable.
pub fn parse_diskutil_plist(plist_bytes: &[u8]) -> (r: Result<Vec<Drive>, EnumeratorError>)
    ensures
        match crate::plist_value::plist_document(plist_bytes@) {
            Ok(doc) => match r {
                Ok(d) => diskutil_drives(doc) == Ok::<Seq<DriveView>, Seq<char>>(drive_views(d@)),
                Err(EnumeratorError::Parse(m)) => diskutil_drives(doc) == Err::<
                    Seq<DriveView>,
                    Seq<char>,
                >(m@),
                Err(_) => false,
            },
            Err(msg) => r matches Err(EnumeratorError::Parse(m)) && m@ == msg,
        },
{
    match parse_plist(plist_bytes) {
        Ok(doc) => drives_from_diskutil_plist(&doc),
        Err(m) => Err(EnumeratorError::Parse(m)),
    }
}

// ── Dispatch ────────────────────────────────────────────────────────────────

/// The output of the platform's drive-listing tool.
pub enum DriveListing {
    /// `diskutil list -plist external` (macOS).
    DiskutilPlist(Vec<u8>),
    /// `lsblk -J -b -o NAME,SIZE,RM,MODEL,TYPE` (Linux).
    LsblkJson(Vec<u8>),
    /// `wmic diskdrive ... get DeviceID,Size,Model /format:csv` (Windows),
    /// decoded as UTF-8 with invalid sequences replaced.
    WmicCsv(String),
    /// A platform without a listing tool.
    Unsupported,
}

/// The removable drives in the output of the platform's listing tool; none
/// on a platform without one.
pub fn list_drives(listing: DriveListing) -> (r: Result<Vec<Drive>, EnumeratorError>)
    ensures
        match listing {
            DriveListing::DiskutilPlist(b) => match crate::plist_value::plist_document(b@) {
                Ok(doc) => match r {
                    Ok(d) => diskutil_drives(doc) == Ok::<Seq<DriveView>, Seq<char>>(
                        drive_views(d@),
                    ),
                    Err(EnumeratorError::Parse(m)) => diskutil_drives(doc) == Err::<
                        Seq<DriveView>,
                        Seq<char>,
                    >(m@),
                    Err(_) => false,
                },
                Err(msg) => r matches Err(EnumeratorError::Parse(m)) && m@ == msg,
            },
            DriveListing::LsblkJson(b) => match crate::json::json_document(b@) {
                Ok(doc) => match r {
                    Ok(d) => lsblk_drives(doc) == Ok::<Seq<DriveView>, Seq<char>>(drive_views(d@)),
                    Err(EnumeratorError::Parse(m)) => lsblk_drives(doc) == Err::<
                        Seq<DriveView>,
                        Seq<char>,
                    >(m@),
                    Err(_) => false,
                },
                Err(msg) => r matches Err(EnumeratorError::Parse(m)) && m@ == msg,
            },
            DriveListing::WmicCsv(t) => r matches Ok(d) && drive_views(d@) == wmic_drives(t@),
            DriveListing::Unsupported => r matches Ok(d) && d@.len() == 0,
        },
{
    match listing {
        DriveListing::DiskutilPlist(b) => parse_diskutil_plist(b.as_slice()),
        DriveListing::LsblkJson(b) => parse_lsblk_json(b.as_slice()),
        DriveListing::WmicCsv(t) => parse_wmic_csv(t.as_str()),
        DriveListing::Unsupported => Ok(Vec::new()),
    }
}


// ── The listings as filters ─────────────────────────────────────────────────

/// The non-blank lines of a text, trimmed.
pub open spec fn nonblank(ls: Seq<Seq<char>>) -> Seq<Seq<char>> {
    ls.filter(|l: Seq<char>| trim(l).len() > 0).map_values(|l: Seq<char>| trim(l))
}

/// A `wmic` data row (a trimmed line) names a device under the header `h`.
pub open spec fn wmic_keeps(h: Seq<Seq<char>>, l: Seq<char>) -> bool {
    column(h, csv_cells(l), "DeviceID"@, 0).len() > 0
}

/// The drive of a `wmic` data row: the `DeviceID` cell as its path, the
/// `Size` cell read as a number (0 when unreadable), labelled by the `Model`
/// cell or else the device id.
pub open spec fn wmic_drive_of(h: Seq<Seq<char>>, l: Seq<char>) -> DriveView {
    wmic_row(h, csv_cells(l))[0]
}

/// The drives of `wmic` rows: the header is the first non-blank line, and
/// each later non-blank line with a `DeviceID` gives one drive, in order.
pub open spec fn wmic_listing(text: Seq<char>) -> Seq<DriveView> {
    let rows = nonblank(lines(text));
    if rows.len() == 0 {
        Seq::empty()
    } else {
        let h = csv_cells(rows[0]);
        rows.skip(1).filter(|l: Seq<char>| wmic_keeps(h, l)).map_values(
            |l: Seq<char>| wmic_drive_of(h, l),
        )
    }
}

proof fn lemma_nonblank_prepend(l: Seq<char>, rest: Seq<Seq<char>>)
    ensures
        nonblank(seq![l] + rest) == (if trim(l).len() > 0 {
            seq![trim(l)] + nonblank(rest)
        } else {
            nonblank(rest)
        }),
{
    let p = |x: Seq<char>| trim(x).len() > 0;
    rest.lemma_filter_prepend(l, p);
    if trim(l).len() > 0 {
        assert((seq![l] + rest.filter(p)).map_values(|x: Seq<char>| trim(x)) =~= seq![trim(l)]
            + rest.filter(p).map_values(|x: Seq<char>| trim(x)));
    } else {
        assert(Seq::<Seq<char>>::empty() + rest.filter(p) =~= rest.filter(p));
    }
}

proof fn lemma_wmic_rows(ls: Seq<Seq<char>>, i: int, h: Seq<Seq<char>>)
    requires
        0 <= i <= ls.len(),
    ensures
        wmic_from(ls, i, Some(h)) == nonblank(ls.subrange(i, ls.len() as int)).filter(
            |l: Seq<char>| wmic_keeps(h, l),
        ).map_values(|l: Seq<char>| wmic_drive_of(h, l)),
    decreases ls.len() - i,
{
    let keep = |l: Seq<char>| wmic_keeps(h, l);
    let drv = |l: Seq<char>| wmic_drive_of(h, l);
    let sub = ls.subrange(i, ls.len() as int);
    if i == ls.len() {
        assert(sub =~= Seq::<Seq<char>>::empty());
        assert(nonblank(sub) =~= Seq::<Seq<char>>::empty());
        assert(nonblank(sub).filter(keep) =~= Seq::<Seq<char>>::empty());
        assert(nonblank(sub).filter(keep).map_values(drv) =~= Seq::<DriveView>::empty());
    } else {
        lemma_wmic_rows(ls, i + 1, h);
        let rest = ls.subrange(i + 1, ls.len() as int);
        assert(sub =~= seq![ls[i]] + rest);
        lemma_nonblank_prepend(ls[i], rest);
        if trim(ls[i]).len() > 0 {
            let t = trim(ls[i]);
            nonblank(rest).lemma_filter_prepend(t, keep);
            if wmic_keeps(h, t) {
                assert((seq![t] + nonblank(rest).filter(keep)).map_values(drv) =~= seq![drv(t)]
                    + nonblank(rest).filter(keep).map_values(drv));
                assert(wmic_row(h, csv_cells(t)) =~= seq![drv(t)]);
            } else {
                assert(Seq::<Seq<char>>::empty() + nonblank(rest).filter(keep) =~= nonblank(
                    rest,
                ).filter(keep));
                assert(wmic_row(h, csv_cells(t)) =~= Seq::<DriveView>::empty());
                assert(wmic_row(h, csv_cells(t)) + wmic_from(ls, i + 1, Some(h)) =~= wmic_from(
                    ls,
                    i + 1,
                    Some(h),
                ));
            }
        }
    }
}

proof fn lemma_wmic_header(ls: Seq<Seq<char>>, i: int)
    requires
        0 <= i <= ls.len(),
    ensures
        wmic_from(ls, i, None) == ({
            let rows = nonblank(ls.subrange(i, ls.len() as int));
            if rows.len() == 0 {
                Seq::empty()
            } else {
                let h = csv_cells(rows[0]);
                rows.skip(1).filter(|l: Seq<char>| wmic_keeps(h, l)).map_values(
                    |l: Seq<char>| wmic_drive_of(h, l),
                )
            }
        }),
    decreases ls.len() - i,
{
    let sub = ls.subrange(i, ls.len() as int);
    if i == ls.len() {
        assert(sub =~= Seq::<Seq<char>>::empty());
        assert(nonblank(sub) =~= Seq::<Seq<char>>::empty());
    } else {
        let rest = ls.subrange(i + 1, ls.len() as int);
        assert(sub =~= seq![ls[i]] + rest);
        lemma_nonblank_prepend(ls[i], rest);
        if trim(ls[i]).len() > 0 {
            let t = trim(ls[i]);
            lemma_wmic_rows(ls, i + 1, csv_cells(t));
            assert((seq![t] + nonblank(rest)).skip(1) =~= nonblank(rest));
        } else {
            lemma_wmic_header(ls, i + 1);
        }
    }
}

/// The `wmic` listing, row by row: the first non-blank line is the header,
/// and every later non-blank line whose `DeviceID` cell is not empty gives
/// one drive, in order.
pub proof fn law_wmic_rows(text: Seq<char>)
    ensures
        wmic_drives(text) == wmic_listing(text),
        forall|k: int| 0 <= k < wmic_drives(text).len() ==> #[trigger] wmic_drives(text)[k].removable,
{
    lemma_wmic_header(lines(text), 0);
    assert(lines(text).subrange(0, lines(text).len() as int) =~= lines(text));
    let rows = nonblank(lines(text));
    if rows.len() > 0 {
        let h = csv_cells(rows[0]);
        assert forall|k: int| 0 <= k < wmic_drives(text).len() implies #[trigger] wmic_drives(
            text,
        )[k].removable by {
            let keep = |l: Seq<char>| wmic_keeps(h, l);
            rows.skip(1).lemma_filter_pred(keep, k);
            let l = rows.skip(1).filter(keep)[k];
            assert(wmic_keeps(h, l));
            assert(wmic_row(h, csv_cells(l)).len() == 1);
        }
    }
}

/// A block device that `lsblk` lists as a drive: a removable `disk` with a
/// name.
pub open spec fn lsblk_keeps(dev: JsonValue) -> bool {
    &&& or_empty(as_str(index(dev, "type"@))) == "disk"@
    &&& lsblk_removable(index(dev, "rm"@))
    &&& or_empty(as_str(index(dev, "name"@))).len() > 0
}

/// The drive of a kept block device.
pub open spec fn lsblk_drive_of(dev: JsonValue) -> DriveView {
    lsblk_device(dev)[0]
}

proof fn lemma_lsblk_devices(devs: Seq<JsonValue>, i: int)
    requires
        0 <= i <= devs.len(),
    ensures
        lsblk_devices(devs, i) == devs.subrange(i, devs.len() as int).filter(
            |d: JsonValue| lsblk_keeps(d),
        ).map_values(|d: JsonValue| lsblk_drive_of(d)),
    decreases devs.len() - i,
{
    let keep = |d: JsonValue| lsblk_keeps(d);
    let drv = |d: JsonValue| lsblk_drive_of(d);
    let sub = devs.subrange(i, devs.len() as int);
    if i == devs.len() {
        assert(sub =~= Seq::<JsonValue>::empty());
        assert(sub.filter(keep) =~= Seq::<JsonValue>::empty());
        assert(sub.filter(keep).map_values(drv) =~= Seq::<DriveView>::empty());
    } else {
        lemma_lsblk_devices(devs, i + 1);
        let rest = devs.subrange(i + 1, devs.len() as int);
        assert(sub =~= seq![devs[i]] + rest);
        rest.lemma_filter_prepend(devs[i], keep);
        if lsblk_keeps(devs[i]) {
            assert((seq![devs[i]] + rest.filter(keep)).map_values(drv) =~= seq![drv(devs[i])]
                + rest.filter(keep).map_values(drv));
            assert(lsblk_device(devs[i]) =~= seq![drv(devs[i])]);
        } else {
            assert(Seq::<JsonValue>::empty() + rest.filter(keep) =~= rest.filter(keep));
            assert(lsblk_device(devs[i]) =~= Seq::<DriveView>::empty());
            assert(lsblk_device(devs[i]) + lsblk_devices(devs, i + 1) =~= lsblk_devices(devs, i + 1));
        }
    }
}

/// The `lsblk` listing, device by device: when `blockdevices` is an array,
/// its removable named disks, in order, each as one drive.
pub proof fn law_lsblk_devices(doc: JsonValue)
    ensures
        match json_as_array(index(doc, "blockdevices"@)) {
            Some(devs) => lsblk_drives(doc) == Ok::<Seq<DriveView>, Seq<char>>(
                devs.filter(|d: JsonValue| lsblk_keeps(d)).map_values(
                    |d: JsonValue| lsblk_drive_of(d),
                ),
            ),
            None => lsblk_drives(doc) == Err::<Seq<DriveView>, Seq<char>>("missing blockdevices"@),
        },
{
    match json_as_array(index(doc, "blockdevices"@)) {
        Some(devs) => {
            lemma_lsblk_devices(devs, 0);
            assert(devs.subrange(0, devs.len() as int) =~= devs);
        },
        None => {},
    }
}

proof fn lemma_lsblk_removable(devs: Seq<JsonValue>, i: int)
    ensures
        forall|k: int| 0 <= k < lsblk_devices(devs, i).len() ==> #[trigger] lsblk_devices(devs, i)[k].removable,
    decreases devs.len() - i,
{
    if 0 <= i < devs.len() {
        lemma_lsblk_removable(devs, i + 1);
        let a = lsblk_device(devs[i]);
        let b = lsblk_devices(devs, i + 1);
        assert forall|k: int| 0 <= k < (a + b).len() implies #[trigger] (a + b)[k].removable by {
            if k >= a.len() {
                assert((a + b)[k] == b[k - a.len()]);
            }
        }
    }
}

proof fn lemma_diskutil_removable(disks: Seq<PlistValue>, i: int)
    ensures
        forall|k: int| 0 <= k < diskutil_disks(disks, i).len() ==> #[trigger] diskutil_disks(disks, i)[k].removable,
    decreases disks.len() - i,
{
    if 0 <= i < disks.len() {
        lemma_diskutil_removable(disks, i + 1);
        let a = diskutil_disk(disks[i]);
        let b = diskutil_disks(disks, i + 1);
        assert forall|k: int| 0 <= k < (a + b).len() implies #[trigger] (a + b)[k].removable by {
            if k >= a.len() {
                assert((a + b)[k] == b[k - a.len()]);
            }
        }
    }
}

/// Every drive that [`list_drives`] lists is removable, whichever tool's
/// output it reads.
pub proof fn law_listed_drives_removable(text: Seq<char>, lsblk: JsonValue, diskutil: PlistValue)
    ensures
        forall|k: int| 0 <= k < wmic_drives(text).len() ==> #[trigger] wmic_drives(text)[k].removable,
        lsblk_drives(lsblk) matches Ok(d) ==> forall|k: int| 0 <= k < d.len() ==> #[trigger] d[k].removable,
        diskutil_drives(diskutil) matches Ok(d) ==> forall|k: int| 0 <= k < d.len() ==> #[trigger] d[k].removable,
{
    law_wmic_rows(text);
    if let Some(devs) = json_as_array(index(lsblk, "blockdevices"@)) {
        lemma_lsblk_removable(devs, 0);
    }
    if let Some(d) = as_dictionary(diskutil) {
        if let Some(x) = dict_value(d, "AllDisksAndPartitions"@, 0) {
            if let Some(disks) = plist_as_array(x) {
                lemma_diskutil_removable(disks, 0);
            }
        }
    }
}


/// What `lsblk` reports as a removable device: `rm` is `true`, the string
/// `"1"` or the number 1.
pub open spec fn rm_is_removable(rm: JsonValue) -> bool {
    ||| rm == JsonValue::Bool(true)
    ||| (rm matches JsonValue::String(r) && r@ == "1"@)
    ||| (rm matches JsonValue::Number(x) && x.as_u64 == Some(1u64))
}

/// A block device that is a removable disk named `n`: its `type` is the
/// string `"disk"`, its `rm` reports it removable, and its `name` is the
/// non-empty string `n`.
pub open spec fn removable_disk_named(dev: JsonValue, n: Seq<char>) -> bool {
    &&& index(dev, "type"@) matches JsonValue::String(ty) && ty@ == "disk"@
    &&& rm_is_removable(index(dev, "rm"@))
    &&& index(dev, "name"@) matches JsonValue::String(nm) && nm@ == n
    &&& n.len() > 0
}

/// Every drive of `ds` comes from a device of `devs` that is a removable
/// disk named `n`, with path `/dev/n`, and is marked removable.
pub open spec fn only_removable_disks(devs: Seq<JsonValue>, ds: Seq<DriveView>) -> bool {
    forall|k: int|
        0 <= k < ds.len() ==> (#[trigger] ds[k]).removable && exists|i: int, n: Seq<char>|
            0 <= i < devs.len() && #[trigger] removable_disk_named(devs[i], n) && ds[k].path == "/dev/"@
                + n
}

/// Every device of `devs` that is a removable disk named `n` has a drive
/// with path `/dev/n` in `ds`.
pub open spec fn every_removable_disk(devs: Seq<JsonValue>, ds: Seq<DriveView>) -> bool {
    forall|i: int, n: Seq<char>|
        0 <= i < devs.len() && #[trigger] removable_disk_named(devs[i], n) ==> exists|k: int|
            0 <= k < ds.len() && (#[trigger] ds[k]).path == "/dev/"@ + n
}

/// `lsblk` lists exactly the removable disks. Every drive it gives comes
/// from a block device that is a removable disk named `n` (a disk whose `rm`
/// is 0, or any other value, is never offered), with path `/dev/n`, marked
/// removable; and every such device is listed.
pub proof fn law_lsblk_lists_only_removable_disks(doc: JsonValue)
    ensures
        match json_as_array(index(doc, "blockdevices"@)) {
            None => lsblk_drives(doc) is Err,
            Some(devs) => match lsblk_drives(doc) {
                Ok(ds) => only_removable_disks(devs, ds) && every_removable_disk(devs, ds),
                Err(_) => false,
            },
        },
{
    reveal_strlit("disk");
    reveal_strlit("1");
    law_lsblk_devices(doc);
    match json_as_array(index(doc, "blockdevices"@)) {
        None => {},
        Some(devs) => {
            let keep = |d: JsonValue| lsblk_keeps(d);
            let drv = |d: JsonValue| lsblk_drive_of(d);
            let f = devs.filter(keep);
            let ds = f.map_values(drv);
            assert(lsblk_drives(doc) == Ok::<Seq<DriveView>, Seq<char>>(ds));
            assert forall|k: int| 0 <= k < ds.len() implies (#[trigger] ds[k]).removable && exists|
                i: int,
                n: Seq<char>,
            |
                0 <= i < devs.len() && #[trigger] removable_disk_named(devs[i], n) && ds[k].path == "/dev/"@
                    + n by {
                devs.lemma_filter_pred(keep, k);
                assert(f.contains(f[k]));
                devs.lemma_filter_contains_rev(keep, f[k]);
                let i = choose|i: int| 0 <= i < devs.len() && devs[i] == f[k];
                let d = devs[i];
                assert(lsblk_keeps(d));
                assert(ds[k] == lsblk_drive_of(d));
                let n = or_empty(as_str(index(d, "name"@)));
                assert(removable_disk_named(d, n));
            }
            assert forall|i: int, n: Seq<char>|
                0 <= i < devs.len() && #[trigger] removable_disk_named(devs[i], n) implies exists|k: int|
                0 <= k < ds.len() && (#[trigger] ds[k]).path == "/dev/"@ + n by {
                assert(lsblk_keeps(devs[i]));
                devs.lemma_filter_contains(keep, i);
                let k = choose|k: int| 0 <= k < f.len() && f[k] == devs[i];
                assert(ds[k] == lsblk_drive_of(devs[i]));
            }
            assert(only_removable_disks(devs, ds));
            assert(every_removable_disk(devs, ds));
        },
    }
}


/// The size shown in a drive's name is the size in gigabytes (10^9 bytes)
/// rounded to the nearest whole number, a tie going to the even one.
pub proof fn law_gigabytes_nearest(size: nat)
    ensures
        size <= gigabytes(size) * 1_000_000_000 + 500_000_000,
        gigabytes(size) * 1_000_000_000 <= size + 500_000_000,
        gigabytes(size) * 1_000_000_000 + 500_000_000 == size ==> gigabytes(size) % 2 == 0,
        size + 500_000_000 == gigabytes(size) * 1_000_000_000 ==> gigabytes(size) % 2 == 0,
{
    let q = size / 1_000_000_000;
    let r = size % 1_000_000_000;
    assert(size == q * 1_000_000_000 + r && 0 <= r < 1_000_000_000);
}


/// A `diskutil` entry that is a dictionary whose `DeviceIdentifier` is the
/// string `id`.
pub open spec fn disk_with_id(disk: PlistValue, id: Seq<char>) -> bool {
    disk matches PlistValue::Dictionary(d) && dict_value(d@, "DeviceIdentifier"@, 0) matches Some(
        PlistValue::String(s),
    ) && s@ == id
}

/// The `Size` of a `diskutil` entry: an unsigned integer, 0 when absent or
/// of another kind.
pub open spec fn disk_size(disk: PlistValue) -> u64 {
    match disk {
        PlistValue::Dictionary(d) => match dict_value(d@, "Size"@, 0) {
            Some(PlistValue::Integer(Some(u))) => u,
            _ => 0,
        },
        _ => 0,
    }
}

/// Every drive of `ds` comes from an entry of `disks[lo..]` with a string
/// id, has path `/dev/<id>` and that entry's size, and is removable.
pub open spec fn only_identified_disks(disks: Seq<PlistValue>, lo: int, ds: Seq<DriveView>) -> bool {
    forall|k: int|
        0 <= k < ds.len() ==> (#[trigger] ds[k]).removable && exists|j: int, id: Seq<char>|
            lo <= j < disks.len() && #[trigger] disk_with_id(disks[j], id) && ds[k].path == "/dev/"@ + id
                && ds[k].size_bytes == disk_size(disks[j])
}

/// Every entry of `disks[lo..]` with a string id has a drive in `ds`.
pub open spec fn every_identified_disk(disks: Seq<PlistValue>, lo: int, ds: Seq<DriveView>) -> bool {
    forall|j: int, id: Seq<char>|
        lo <= j < disks.len() && #[trigger] disk_with_id(disks[j], id) ==> exists|k: int|
            0 <= k < ds.len() && (#[trigger] ds[k]).path == "/dev/"@ + id
}

proof fn lemma_diskutil_from(disks: Seq<PlistValue>, i: int)
    requires
        0 <= i <= disks.len(),
    ensures
        only_identified_disks(disks, i, diskutil_disks(disks, i)),
        every_identified_disk(disks, i, diskutil_disks(disks, i)),
    decreases disks.len() - i,
{
    reveal_strlit("DeviceIdentifier");
    if i < disks.len() {
        lemma_diskutil_from(disks, i + 1);
        let head = diskutil_disk(disks[i]);
        let tail = diskutil_disks(disks, i + 1);
        let ds = diskutil_disks(disks, i);
        assert(ds == head + tail);
        assert forall|k: int| 0 <= k < ds.len() implies (#[trigger] ds[k]).removable && exists|
            j: int,
            id: Seq<char>,
        |
            i <= j < disks.len() && #[trigger] disk_with_id(disks[j], id) && ds[k].path == "/dev/"@
                + id && ds[k].size_bytes == disk_size(disks[j]) by {
            if k < head.len() {
                let d = as_dictionary(disks[i])->0;
                let id = dict_string(d, "DeviceIdentifier"@)->0;
                assert(disk_with_id(disks[i], id));
                assert(ds[k] == head[k]);
            } else {
                assert(ds[k] == tail[k - head.len()]);
            }
        }
        assert forall|j: int, id: Seq<char>|
            i <= j < disks.len() && #[trigger] disk_with_id(disks[j], id) implies exists|k: int|
            0 <= k < ds.len() && (#[trigger] ds[k]).path == "/dev/"@ + id by {
            if j == i {
                assert(head.len() == 1);
                assert(ds[0] == head[0]);
            } else {
                let k = choose|k: int| 0 <= k < tail.len() && (#[trigger] tail[k]).path == "/dev/"@ + id;
                assert(ds[k + head.len()] == tail[k]);
            }
        }
    }
}

/// `diskutil` lists exactly the entries of `AllDisksAndPartitions` that are
/// dictionaries with a string `DeviceIdentifier` `id`: each as a removable
/// drive with path `/dev/<id>` and the entry's `Size` (0 when it has none).
pub proof fn law_diskutil_lists_identified_disks(doc: PlistValue)
    ensures
        match doc {
            PlistValue::Dictionary(d) => match dict_value(d@, "AllDisksAndPartitions"@, 0) {
                Some(PlistValue::Array(disks)) => match diskutil_drives(doc) {
                    Ok(ds) => only_identified_disks(disks@, 0, ds) && every_identified_disk(
                        disks@,
                        0,
                        ds,
                    ),
                    Err(_) => false,
                },
                _ => diskutil_drives(doc) is Err,
            },
            _ => diskutil_drives(doc) is Err,
        },
{
    if let PlistValue::Dictionary(d) = doc {
        if let Some(PlistValue::Array(disks)) = dict_value(d@, "AllDisksAndPartitions"@, 0) {
            lemma_diskutil_from(disks@, 0);
        }
    }
}


proof fn lemma_column_found(hdr: Seq<Seq<char>>, row: Seq<Seq<char>>, name: Seq<char>, k: int)
    requires
        0 <= k,
        column(hdr, row, name, k).len() > 0,
    ensures
        exists|c: int|
            k <= c < hdr.len() && c < row.len() && eq_ignore_ascii_case(hdr[c], name) && row[c]
                == column(hdr, row, name, k),
    decreases hdr.len() - k,
{
    if k < hdr.len() && k < row.len() && !eq_ignore_ascii_case(hdr[k], name) {
        lemma_column_found(hdr, row, name, k + 1);
    }
}

/// The path of every drive that `wmic` lists is a non-empty cell of a data
/// row (a non-blank line after the header), taken from the column whose
/// header is `DeviceID` (in any case); the drive is removable.
pub proof fn law_wmic_path_is_device_id(text: Seq<char>)
    ensures
        ({
            let rows = nonblank(lines(text));
            let ds = wmic_drives(text);
            forall|k: int|
                0 <= k < ds.len() ==> (#[trigger] ds[k]).removable && ds[k].path.len() > 0 && exists|
                    j: int,
                    c: int,
                |
                    #![trigger csv_cells(rows[j])[c]]
                    1 <= j < rows.len() && 0 <= c < csv_cells(rows[j]).len() && c < csv_cells(
                        rows[0],
                    ).len() && csv_cells(rows[j])[c] == ds[k].path && eq_ignore_ascii_case(
                        csv_cells(rows[0])[c],
                        "DeviceID"@,
                    )
        }),
{
    law_wmic_rows(text);
    let rows = nonblank(lines(text));
    let ds = wmic_drives(text);
    if rows.len() > 0 {
        let h = csv_cells(rows[0]);
        let keep = |l: Seq<char>| wmic_keeps(h, l);
        let body = rows.skip(1);
        let f = body.filter(keep);
        assert forall|k: int| 0 <= k < ds.len() implies (#[trigger] ds[k]).removable && ds[k].path.len()
            > 0 && exists|j: int, c: int|
            #![trigger csv_cells(rows[j])[c]]
            1 <= j < rows.len() && 0 <= c < csv_cells(rows[j]).len() && c < csv_cells(rows[0]).len()
                && csv_cells(rows[j])[c] == ds[k].path && eq_ignore_ascii_case(
                csv_cells(rows[0])[c],
                "DeviceID"@,
            ) by {
            body.lemma_filter_pred(keep, k);
            let l = f[k];
            assert(wmic_keeps(h, l));
            assert(ds[k] == wmic_drive_of(h, l));
            assert(f.contains(l));
            body.lemma_filter_contains_rev(keep, l);
            let j0 = choose|j0: int| 0 <= j0 < body.len() && body[j0] == l;
            assert(rows[j0 + 1] == l);
            let cells = csv_cells(l);
            lemma_column_found(h, cells, "DeviceID"@, 0);
            let c = choose|c: int|
                0 <= c < h.len() && c < cells.len() && eq_ignore_ascii_case(h[c], "DeviceID"@)
                    && cells[c] == column(h, cells, "DeviceID"@, 0);
            assert(csv_cells(rows[j0 + 1])[c] == ds[k].path);
        }
    }
}

} // verus!
