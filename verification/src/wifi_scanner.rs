//! Wi-Fi networks, read from the output of `networksetup` (macOS), `nmcli`
//! and `iwlist` (Linux) and `netsh` (Windows), and the deduplication of a
//! scan by SSID. Running the tools is left to the caller.
use vstd::prelude::*;

use crate::text::{
    after_char, after_char_chars, chars_eq, chars_of, contains, copy_range, eq_ignore_ascii_case,
    eq_ignore_ascii_case_chars, find_chars, find_from, first_word, first_word_chars, has_char,
    lemma_find_char_from, lemma_find_from_found, lines, lines_of, parse_i32, parse_i32_chars,
    replace, replace_chars, splitn_chars, splitn_from, starts_with, starts_with_chars,
    string_from_chars, trim, trim_char, trim_char_chars, trim_chars, trim_end_char,
    trim_end_char_chars, trim_end_str, trim_end_str_chars, trim_start_char, trim_start_char_chars,
    trim_start_str, trim_start_str_chars, views, clean, lacks, lemma_trim_clean,
    lemma_trim_after_space, lemma_find_char_first, lemma_replace_absent, matches_at,
    skip_char, lemma_trim_lacks, is_word, lemma_first_word_of_word,
};

verus! {

/// A Wi-Fi network seen by a scan.
#[derive(Debug)]
pub struct WifiNetwork {
    pub ssid: String,
    /// Signal strength in dBm; 0 when unknown.
    pub signal_strength: i32,
    pub secured: bool,
    /// The frequency in GHz as the scanner wrote it, when it wrote one.
    pub frequency_ghz: Option<String>,
}

/// A [`WifiNetwork`] as plain values.
pub struct WifiView {
    pub ssid: Seq<char>,
    pub signal_strength: i32,
    pub secured: bool,
    pub frequency_ghz: Option<Seq<char>>,
}

pub open spec fn opt_view(o: Option<String>) -> Option<Seq<char>> {
    match o {
        Some(s) => Some(s@),
        None => None,
    }
}

impl View for WifiNetwork {
    type V = WifiView;

    open spec fn view(&self) -> WifiView {
        WifiView {
            ssid: self.ssid@,
            signal_strength: self.signal_strength,
            secured: self.secured,
            frequency_ghz: opt_view(self.frequency_ghz),
        }
    }
}

/// The views of a sequence of networks.
pub open spec fn wifi_views(n: Seq<WifiNetwork>) -> Seq<WifiView> {
    n.map_values(|x: WifiNetwork| x@)
}

#[derive(Debug)]
pub enum WifiError {
    /// The scanning tool could not be run.
    Subprocess(std::io::Error),
    /// Its output could not be read.
    Parse(String),
}

fn network(ssid: &[char], signal_strength: i32, secured: bool, frequency_ghz: Option<Vec<char>>) -> (r:
    WifiNetwork)
    ensures
        r@ == (WifiView {
            ssid: ssid@,
            signal_strength,
            secured,
            frequency_ghz: match frequency_ghz {
                Some(f) => Some(f@),
                None => None,
            },
        }),
{
    let f = match frequency_ghz {
        Some(f) => Some(string_from_chars(f.as_slice())),
        None => None,
    };
    WifiNetwork { ssid: string_from_chars(ssid), signal_strength, secured, frequency_ghz: f }
}

// ── macOS: networksetup ─────────────────────────────────────────────────────

/// The `Device:` of the first Wi-Fi block among the lines `ls[i..]`;
/// `in_wifi` tells whether line `i` is inside such a block.
pub open spec fn ports_from(ls: Seq<Seq<char>>, i: int, in_wifi: bool) -> Option<Seq<char>>
    decreases ls.len() - i,
{
    if i < 0 || i >= ls.len() {
        None
    } else {
        let t = trim(ls[i]);
        if starts_with(t, "Hardware Port:"@) {
            let port = trim(t.subrange("Hardware Port:"@.len() as int, t.len() as int));
            ports_from(
                ls,
                i + 1,
                eq_ignore_ascii_case(port, "wi-fi"@) || eq_ignore_ascii_case(port, "airport"@),
            )
        } else if in_wifi && starts_with(t, "Device:"@) {
            Some(trim(t.subrange("Device:"@.len() as int, t.len() as int)))
        } else {
            ports_from(ls, i + 1, in_wifi)
        }
    }
}

/// Pure parser for `networksetup -listallhardwareports` output.
/// Looks for the block whose Hardware Port is "Wi-Fi" (or "AirPort", in any
/// ASCII case) and returns its Device.
pub fn parse_wifi_interface_from_hardware_ports(text: &str) -> (r: Option<String>)
    ensures
        match r {
            Some(s) => ports_from(lines(text@), 0, false) == Some(s@),
            None => ports_from(lines(text@), 0, false) is None,
        },
{
    let chars = chars_of(text);
    let ls = lines_of(chars.as_slice());
    let port_prefix = chars_of("Hardware Port:");
    let device_prefix = chars_of("Device:");
    let wifi = chars_of("wi-fi");
    let airport = chars_of("airport");
    let mut in_wifi = false;
    let mut i: usize = 0;
    while i < ls.len()
        invariant
            i <= ls@.len(),
            views(ls@) == lines(text@),
            port_prefix@ == "Hardware Port:"@,
            device_prefix@ == "Device:"@,
            wifi@ == "wi-fi"@,
            airport@ == "airport"@,
            ports_from(lines(text@), 0, false) == ports_from(views(ls@), i as int, in_wifi),
        decreases ls.len() - i,
    {
        let t = trim_chars(ls[i].as_slice());
        if starts_with_chars(t.as_slice(), port_prefix.as_slice()) {
            let port = trim_chars(copy_range(t.as_slice(), port_prefix.len(), t.len()).as_slice());
            in_wifi = eq_ignore_ascii_case_chars(port.as_slice(), wifi.as_slice())
                || eq_ignore_ascii_case_chars(port.as_slice(), airport.as_slice());
        } else if in_wifi && starts_with_chars(t.as_slice(), device_prefix.as_slice()) {
            let dev = trim_chars(copy_range(t.as_slice(), device_prefix.len(), t.len()).as_slice());
            return Some(string_from_chars(dev.as_slice()));
        }
        i = i + 1;
    }
    None
}

/// The network of one line of `networksetup -listpreferredwirelessnetworks`
/// output: none for the header and for blank lines.
pub open spec fn preferred_line(line: Seq<char>) -> Seq<WifiView> {
    if starts_with(line, "Preferred networks"@) {
        Seq::empty()
    } else {
        let ssid = trim(trim_start_char(line, '\t'));
        if ssid.len() == 0 {
            Seq::empty()
        } else {
            seq![WifiView { ssid, signal_strength: 0, secured: true, frequency_ghz: None }]
        }
    }
}

/// The networks of the lines `ls[i..]`.
pub open spec fn preferred_from(ls: Seq<Seq<char>>, i: int) -> Seq<WifiView>
    decreases ls.len() - i,
{
    if i < 0 || i >= ls.len() {
        Seq::empty()
    } else {
        preferred_line(ls[i]) + preferred_from(ls, i + 1)
    }
}

/// Parses `networksetup -listpreferredwirelessnetworks <iface>` output: one
/// tab-indented SSID per line after a header. The signal is unknown (0) and
/// the network is taken as secured.
pub fn parse_preferred_networks_output(text: &str) -> (r: Result<Vec<WifiNetwork>, WifiError>)
    ensures
        r matches Ok(n) && wifi_views(n@) == preferred_from(lines(text@), 0),
{
    let chars = chars_of(text);
    let ls = lines_of(chars.as_slice());
    let header = chars_of("Preferred networks");
    let mut out: Vec<WifiNetwork> = Vec::new();
    let mut i: usize = 0;
    while i < ls.len()
        invariant
            i <= ls@.len(),
            views(ls@) == lines(text@),
            header@ == "Preferred networks"@,
            wifi_views(out@) + preferred_from(views(ls@), i as int) == preferred_from(
                lines(text@),
                0,
            ),
        decreases ls.len() - i,
    {
        let ghost before = out@;
        let line = ls[i].as_slice();
        if !starts_with_chars(line, header.as_slice()) {
            let ssid = trim_chars(trim_start_char_chars(line, '\t').as_slice());
            if ssid.len() > 0 {
                out.push(network(ssid.as_slice(), 0, true, None));
                assert(wifi_views(out@) =~= wifi_views(before) + preferred_line(line@));
            } else {
                assert(wifi_views(out@) =~= wifi_views(before) + preferred_line(line@));
            }
        } else {
            assert(wifi_views(out@) =~= wifi_views(before) + preferred_line(line@));
        }
        i = i + 1;
    }
    assert(wifi_views(out@) + Seq::<WifiView>::empty() =~= wifi_views(out@));
    Ok(out)
}

// ── Signal conversion ───────────────────────────────────────────────────────

/// `p / 2` in Rust, rounding toward zero.
pub open spec fn half_toward_zero(p: int) -> int {
    if p >= 0 {
        p / 2
    } else {
        -((-p) / 2)
    }
}

/// A signal percentage as approximate dBm: `p / 2 - 100`.
pub open spec fn percent_to_dbm(p: i32) -> i32 {
    (half_toward_zero(p as int) - 100) as i32
}

fn percent_to_dbm_exec(p: i32) -> (r: i32)
    ensures
        r == percent_to_dbm(p),
{
    if p >= 0 {
        p / 2 - 100
    } else {
        let q: i64 = (0 - (p as i64)) / 2;
        (0 - q - 100) as i32
    }
}

// ── Linux: nmcli ────────────────────────────────────────────────────────────

/// The network of one line of `nmcli -t -f SSID,SIGNAL,SECURITY` output.
/// `\:` inside the SSID stands for a colon.
pub open spec fn nmcli_line(line: Seq<char>) -> Seq<WifiView> {
    let sanitized = replace(line, seq!['\\', ':'], seq!['\u{0}']);
    let parts = splitn_from(sanitized, 3, ':', 0);
    if parts.len() < 3 {
        Seq::empty()
    } else {
        let ssid = replace(trim(parts[0]), seq!['\u{0}'], seq![':']);
        if ssid.len() == 0 {
            Seq::empty()
        } else {
            let signal = match parse_i32(trim(parts[1])) {
                Some(v) => v,
                None => 0,
            };
            let security = replace(trim(parts[2]), seq!['\u{0}'], seq![':']);
            seq![
                WifiView {
                    ssid,
                    signal_strength: percent_to_dbm(signal),
                    secured: security != "--"@ && security.len() != 0,
                    frequency_ghz: None,
                },
            ]
        }
    }
}

/// The networks of the lines `ls[i..]`.
pub open spec fn nmcli_from(ls: Seq<Seq<char>>, i: int) -> Seq<WifiView>
    decreases ls.len() - i,
{
    if i < 0 || i >= ls.len() {
        Seq::empty()
    } else {
        nmcli_line(ls[i]) + nmcli_from(ls, i + 1)
    }
}

fn one(c: char) -> (r: Vec<char>)
    ensures
        r@ == seq![c],
{
    let mut r: Vec<char> = Vec::new();
    r.push(c);
    assert(r@ =~= seq![c]);
    r
}

fn nmcli_line_exec(line: &[char]) -> (r: Option<WifiNetwork>)
    ensures
        match r {
            Some(n) => nmcli_line(line@) == seq![n@],
            None => nmcli_line(line@) == Seq::<WifiView>::empty(),
        },
{
    let mut escaped: Vec<char> = Vec::new();
    escaped.push('\\');
    escaped.push(':');
    assert(escaped@ =~= seq!['\\', ':']);
    let nul = one('\u{0}');
    let colon = one(':');
    let sanitized = replace_chars(line, escaped.as_slice(), nul.as_slice());
    let parts = splitn_chars(sanitized.as_slice(), 3, ':');
    if parts.len() < 3 {
        return None;
    }
    let ssid = replace_chars(trim_chars(parts[0].as_slice()).as_slice(), nul.as_slice(), colon.as_slice());
    if ssid.len() == 0 {
        return None;
    }
    let signal: i32 = match parse_i32_chars(trim_chars(parts[1].as_slice()).as_slice()) {
        Some(v) => v,
        None => 0,
    };
    let security = replace_chars(
        trim_chars(parts[2].as_slice()).as_slice(),
        nul.as_slice(),
        colon.as_slice(),
    );
    let dashes = chars_of("--");
    let secured = !chars_eq(security.as_slice(), dashes.as_slice()) && security.len() != 0;
    Some(network(ssid.as_slice(), percent_to_dbm_exec(signal), secured, None))
}

/// Parses `nmcli -t -f SSID,SIGNAL,SECURITY device wifi list` output.
///
/// Each line is `SSID:SIGNAL:SECURITY` with `\:` standing for a colon inside
/// the SSID; lines with fewer fields or an empty SSID are skipped. The signal
/// percentage `p` becomes `p / 2 - 100` dBm (0% when unreadable), and the
/// network is secured unless its security is empty or `--`.
pub fn parse_nmcli_output(text: &str) -> (r: Result<Vec<WifiNetwork>, WifiError>)
    ensures
        r matches Ok(n) && wifi_views(n@) == nmcli_from(lines(text@), 0),
{
    let chars = chars_of(text);
    let ls = lines_of(chars.as_slice());
    let mut out: Vec<WifiNetwork> = Vec::new();
    let mut i: usize = 0;
    while i < ls.len()
        invariant
            i <= ls@.len(),
            views(ls@) == lines(text@),
            wifi_views(out@) + nmcli_from(views(ls@), i as int) == nmcli_from(lines(text@), 0),
        decreases ls.len() - i,
    {
        let ghost before = out@;
        match nmcli_line_exec(ls[i].as_slice()) {
            Some(n) => {
                out.push(n);
                assert(wifi_views(out@) =~= wifi_views(before) + seq![n@]);
            },
            None => {
                assert(wifi_views(out@) =~= wifi_views(before) + Seq::<WifiView>::empty());
            },
        }
        i = i + 1;
    }
    assert(wifi_views(out@) + Seq::<WifiView>::empty() =~= wifi_views(out@));
    Ok(out)
}

// ── Block-structured listings ───────────────────────────────────────────────

/// What is known of the network whose block is being read.
pub struct ScanBlock {
    pub ssid: Option<Seq<char>>,
    pub signal: i32,
    pub secured: bool,
    pub freq: Option<Seq<char>>,
}

/// A block that starts with the SSID `ssid`.
pub open spec fn fresh_block(ssid: Option<Seq<char>>) -> ScanBlock {
    ScanBlock { ssid, signal: 0, secured: false, freq: None }
}

/// The network of a finished block: none when it has no SSID or an empty
/// one.
pub open spec fn emit(b: ScanBlock) -> Seq<WifiView> {
    match b.ssid {
        Some(s) => if s.len() > 0 {
            seq![
                WifiView {
                    ssid: s,
                    signal_strength: b.signal,
                    secured: b.secured,
                    frequency_ghz: b.freq,
                },
            ]
        } else {
            Seq::empty()
        },
        None => Seq::empty(),
    }
}

pub open spec fn opt_chars(o: Option<Vec<char>>) -> Option<Seq<char>> {
    match o {
        Some(v) => Some(v@),
        None => None,
    }
}

fn emit_exec(
    out: &mut Vec<WifiNetwork>,
    ssid: Option<Vec<char>>,
    signal: i32,
    secured: bool,
    freq: Option<Vec<char>>,
)
    ensures
        wifi_views(final(out)@) == wifi_views(old(out)@) + emit(
            ScanBlock { ssid: opt_chars(ssid), signal, secured, freq: opt_chars(freq) },
        ),
{
    let ghost before = out@;
    match ssid {
        Some(s) => {
            if s.len() > 0 {
                out.push(network(s.as_slice(), signal, secured, freq));
                assert(wifi_views(out@) =~= wifi_views(before) + emit(
                    ScanBlock { ssid: opt_chars(Some(s)), signal, secured, freq: opt_chars(freq) },
                ));
            } else {
                assert(wifi_views(out@) =~= wifi_views(before) + Seq::<WifiView>::empty());
            }
        },
        None => {
            assert(wifi_views(out@) =~= wifi_views(before) + Seq::<WifiView>::empty());
        },
    }
}

/// The text after the first `':'`, or nothing.
pub open spec fn value_after_colon(t: Seq<char>) -> Seq<char> {
    match after_char(t, ':') {
        Some(v) => v,
        None => Seq::empty(),
    }
}

fn value_after_colon_exec(t: &[char]) -> (r: Vec<char>)
    ensures
        r@ == value_after_colon(t@),
{
    match after_char_chars(t, ':') {
        Some(v) => v,
        None => Vec::new(),
    }
}

// ── Windows: netsh ──────────────────────────────────────────────────────────

/// The networks of the lines `ls[i..]` of `netsh wlan show networks` output,
/// the current block being `b`.
pub open spec fn netsh_from(ls: Seq<Seq<char>>, i: int, b: ScanBlock) -> Seq<WifiView>
    decreases ls.len() - i,
{
    if i < 0 || i >= ls.len() {
        emit(b)
    } else {
        let t = trim(ls[i]);
        if starts_with(t, "SSID"@) && has_char(t, ':') && !starts_with(t, "BSSID"@) {
            emit(b) + netsh_from(ls, i + 1, fresh_block(Some(trim(value_after_colon(t)))))
        } else if starts_with(t, "Signal"@) && has_char(t, ':') {
            let pct = match parse_i32(trim_end_char(trim(value_after_colon(t)), '%')) {
                Some(v) => v,
                None => 0,
            };
            netsh_from(
                ls,
                i + 1,
                ScanBlock { ssid: b.ssid, signal: percent_to_dbm(pct), secured: b.secured, freq: b.freq },
            )
        } else if starts_with(t, "Authentication"@) && has_char(t, ':') {
            let val = trim(value_after_colon(t));
            netsh_from(
                ls,
                i + 1,
                ScanBlock {
                    ssid: b.ssid,
                    signal: b.signal,
                    secured: !eq_ignore_ascii_case(val, "Open"@) && val.len() != 0,
                    freq: b.freq,
                },
            )
        } else {
            netsh_from(ls, i + 1, b)
        }
    }
}

/// Parses `netsh wlan show networks mode=bssid` output.
///
/// A line `SSID n : <name>` starts a network; a later `Signal : p%` sets its
/// signal to `p / 2 - 100` dBm, and `Authentication : <a>` makes it secured
/// unless `a` is empty or `Open` (in any ASCII case). A network with an empty
/// name is dropped.
pub fn parse_netsh_output(text: &str) -> (r: Result<Vec<WifiNetwork>, WifiError>)
    ensures
        r matches Ok(n) && wifi_views(n@) == netsh_from(lines(text@), 0, fresh_block(None)),
{
    let chars = chars_of(text);
    let ls = lines_of(chars.as_slice());
    let ssid_p = chars_of("SSID");
    let bssid_p = chars_of("BSSID");
    let signal_p = chars_of("Signal");
    let auth_p = chars_of("Authentication");
    let open = chars_of("Open");
    let mut out: Vec<WifiNetwork> = Vec::new();
    let mut ssid: Option<Vec<char>> = None;
    let mut signal: i32 = 0;
    let mut secured = false;
    let mut i: usize = 0;
    while i < ls.len()
        invariant
            i <= ls@.len(),
            views(ls@) == lines(text@),
            ssid_p@ == "SSID"@,
            bssid_p@ == "BSSID"@,
            signal_p@ == "Signal"@,
            auth_p@ == "Authentication"@,
            open@ == "Open"@,
            wifi_views(out@) + netsh_from(
                views(ls@),
                i as int,
                ScanBlock { ssid: opt_chars(ssid), signal, secured, freq: None },
            ) == netsh_from(lines(text@), 0, fresh_block(None)),
        decreases ls.len() - i,
    {
        let t = trim_chars(ls[i].as_slice());
        let has_colon = crate::text::find_char(t.as_slice(), ':', 0).is_some();
        if starts_with_chars(t.as_slice(), ssid_p.as_slice()) && has_colon && !starts_with_chars(
            t.as_slice(),
            bssid_p.as_slice(),
        ) {
            emit_exec(&mut out, ssid, signal, secured, None);
            ssid = Some(trim_chars(value_after_colon_exec(t.as_slice()).as_slice()));
            signal = 0;
            secured = false;
        } else if starts_with_chars(t.as_slice(), signal_p.as_slice()) && has_colon {
            let val = trim_end_char_chars(
                trim_chars(value_after_colon_exec(t.as_slice()).as_slice()).as_slice(),
                '%',
            );
            let pct: i32 = match parse_i32_chars(val.as_slice()) {
                Some(v) => v,
                None => 0,
            };
            signal = percent_to_dbm_exec(pct);
        } else if starts_with_chars(t.as_slice(), auth_p.as_slice()) && has_colon {
            let val = trim_chars(value_after_colon_exec(t.as_slice()).as_slice());
            secured = !eq_ignore_ascii_case_chars(val.as_slice(), open.as_slice()) && val.len()
                != 0;
        }
        i = i + 1;
    }
    emit_exec(&mut out, ssid, signal, secured, None);
    Ok(out)
}

// ── Linux: iwlist ───────────────────────────────────────────────────────────

/// The block after reading a line that holds `Signal level=`.
pub open spec fn with_signal_level(t: Seq<char>, b: ScanBlock) -> ScanBlock {
    match find_from(t, "Signal level="@, 0) {
        Some(pos) => {
            let rest = t.subrange(pos + "Signal level="@.len(), t.len() as int);
            let w = match first_word(rest) {
                Some(w) => w,
                None => "0"@,
            };
            let level = match parse_i32(trim_end_str(w, "dBm"@)) {
                Some(v) => v,
                None => 0,
            };
            ScanBlock { ssid: b.ssid, signal: level, secured: b.secured, freq: b.freq }
        },
        None => b,
    }
}

/// The networks of the lines `ls[i..]` of `iwlist scan` output, the current
/// cell being `b`.
pub open spec fn iwlist_from(ls: Seq<Seq<char>>, i: int, b: ScanBlock) -> Seq<WifiView>
    decreases ls.len() - i,
{
    if i < 0 || i >= ls.len() {
        emit(b)
    } else {
        let t = trim(ls[i]);
        if starts_with(t, "Cell "@) {
            emit(b) + iwlist_from(ls, i + 1, fresh_block(None))
        } else if starts_with(t, "ESSID:"@) {
            let raw = trim_char(trim(trim_start_str(t, "ESSID:"@)), '"');
            iwlist_from(
                ls,
                i + 1,
                ScanBlock { ssid: Some(raw), signal: b.signal, secured: b.secured, freq: b.freq },
            )
        } else if starts_with(t, "Signal level="@) || contains(t, "Signal level="@) {
            iwlist_from(ls, i + 1, with_signal_level(t, b))
        } else if starts_with(t, "Frequency:"@) {
            match first_word(trim(trim_start_str(t, "Frequency:"@))) {
                Some(v) => iwlist_from(
                    ls,
                    i + 1,
                    ScanBlock { ssid: b.ssid, signal: b.signal, secured: b.secured, freq: Some(v) },
                ),
                None => iwlist_from(ls, i + 1, b),
            }
        } else if starts_with(t, "Encryption key:"@) {
            iwlist_from(
                ls,
                i + 1,
                ScanBlock { ssid: b.ssid, signal: b.signal, secured: contains(t, "on"@), freq: b.freq },
            )
        } else {
            iwlist_from(ls, i + 1, b)
        }
    }
}

/// Parses `iwlist scan` output.
///
/// `Cell ...` starts a network; `ESSID:"<name>"` names it; the first word
/// after `Signal level=` (less a `dBm` suffix) is its signal, 0 when
/// unreadable; the first word after `Frequency:` is kept as its frequency
/// text; `Encryption key:` makes it secured when the line holds `on`. A
/// network with no name or an empty one is dropped.
pub fn parse_iwlist_output(text: &str) -> (r: Result<Vec<WifiNetwork>, WifiError>)
    ensures
        r matches Ok(n) && wifi_views(n@) == iwlist_from(lines(text@), 0, fresh_block(None)),
{
    proof {
        reveal_strlit("ESSID:");
        reveal_strlit("Frequency:");
        reveal_strlit("dBm");
    }
    let chars = chars_of(text);
    let ls = lines_of(chars.as_slice());
    let cell_p = chars_of("Cell ");
    let essid_p = chars_of("ESSID:");
    let level_p = chars_of("Signal level=");
    let freq_p = chars_of("Frequency:");
    let enc_p = chars_of("Encryption key:");
    let on = chars_of("on");
    let zero = chars_of("0");
    let dbm = chars_of("dBm");
    let mut out: Vec<WifiNetwork> = Vec::new();
    let mut ssid: Option<Vec<char>> = None;
    let mut signal: i32 = 0;
    let mut secured = false;
    let mut freq: Option<Vec<char>> = None;
    let mut i: usize = 0;
    while i < ls.len()
        invariant
            i <= ls@.len(),
            views(ls@) == lines(text@),
            cell_p@ == "Cell "@,
            essid_p@ == "ESSID:"@,
            essid_p@.len() > 0,
            level_p@ == "Signal level="@,
            freq_p@ == "Frequency:"@,
            freq_p@.len() > 0,
            enc_p@ == "Encryption key:"@,
            on@ == "on"@,
            zero@ == "0"@,
            dbm@ == "dBm"@,
            dbm@.len() > 0,
            wifi_views(out@) + iwlist_from(
                views(ls@),
                i as int,
                ScanBlock { ssid: opt_chars(ssid), signal, secured, freq: opt_chars(freq) },
            ) == iwlist_from(lines(text@), 0, fresh_block(None)),
        decreases ls.len() - i,
    {
        let t = trim_chars(ls[i].as_slice());
        let ts = t.as_slice();
        if starts_with_chars(ts, cell_p.as_slice()) {
            emit_exec(&mut out, ssid, signal, secured, freq);
            ssid = None;
            signal = 0;
            secured = false;
            freq = None;
        } else if starts_with_chars(ts, essid_p.as_slice()) {
            let raw = trim_char_chars(
                trim_chars(trim_start_str_chars(ts, essid_p.as_slice()).as_slice()).as_slice(),
                '"',
            );
            ssid = Some(raw);
        } else if starts_with_chars(ts, level_p.as_slice()) || find_chars(
            ts,
            level_p.as_slice(),
            0,
        ).is_some() {
            match find_chars(ts, level_p.as_slice(), 0) {
                Some(pos) => {
                    proof {
                        lemma_find_from_found(ts@, level_p@, 0);
                    }
                    let tl = ts.len();
                    assert(pos + level_p@.len() <= tl);
                    let rest = copy_range(ts, pos + level_p.len(), tl);
                    let w = match first_word_chars(rest.as_slice()) {
                        Some(w) => w,
                        None => chars_of("0"),
                    };
                    signal = match parse_i32_chars(trim_end_str_chars(w.as_slice(), dbm.as_slice()).as_slice()) {
                        Some(v) => v,
                        None => 0,
                    };
                },
                None => {},
            }
        } else if starts_with_chars(ts, freq_p.as_slice()) {
            let rest = trim_chars(trim_start_str_chars(ts, freq_p.as_slice()).as_slice());
            match first_word_chars(rest.as_slice()) {
                Some(v) => {
                    freq = Some(v);
                },
                None => {},
            }
        } else if starts_with_chars(ts, enc_p.as_slice()) {
            secured = find_chars(ts, on.as_slice(), 0).is_some();
        }
        i = i + 1;
    }
    emit_exec(&mut out, ssid, signal, secured, freq);
    Ok(out)
}

// ── Deduplication ───────────────────────────────────────────────────────────

/// First index at or after `k` of a network named `ssid`.
pub open spec fn find_ssid(acc: Seq<WifiNetwork>, ssid: Seq<char>, k: int) -> Option<int>
    decreases acc.len() - k,
{
    if k < 0 || k >= acc.len() {
        None
    } else if acc[k].ssid@ == ssid {
        Some(k)
    } else {
        find_ssid(acc, ssid, k + 1)
    }
}

/// Adds `net` to the list of best networks `acc`: a new SSID is appended; a
/// known one is replaced only by a strictly stronger signal.
pub open spec fn keep_best(acc: Seq<WifiNetwork>, net: WifiNetwork) -> Seq<WifiNetwork> {
    match find_ssid(acc, net.ssid@, 0) {
        None => acc.push(net),
        Some(k) => if 0 <= k < acc.len() && net.signal_strength > acc[k].signal_strength {
            acc.update(k, net)
        } else {
            acc
        },
    }
}

/// For each SSID, the first network with the strongest signal, the SSIDs in
/// order of first appearance.
pub open spec fn best_per_ssid(s: Seq<WifiNetwork>) -> Seq<WifiNetwork>
    decreases s.len(),
{
    if s.len() == 0 {
        Seq::empty()
    } else {
        keep_best(best_per_ssid(s.drop_last()), s.last())
    }
}

/// First index at or after `k` whose signal is below `signal`.
pub open spec fn stronger_prefix(sorted: Seq<WifiNetwork>, signal: i32, k: int) -> int
    decreases sorted.len() - k,
{
    if k < 0 || k >= sorted.len() || sorted[k].signal_strength < signal {
        k
    } else {
        stronger_prefix(sorted, signal, k + 1)
    }
}

/// Inserts `x` after every network at least as strong.
pub open spec fn insert_by_signal(sorted: Seq<WifiNetwork>, x: WifiNetwork) -> Seq<WifiNetwork> {
    let p = stronger_prefix(sorted, x.signal_strength, 0);
    sorted.take(p) + seq![x] + sorted.skip(p)
}

/// Stable sort by signal, strongest first.
pub open spec fn sort_by_signal(s: Seq<WifiNetwork>) -> Seq<WifiNetwork>
    decreases s.len(),
{
    if s.len() == 0 {
        s
    } else {
        insert_by_signal(sort_by_signal(s.drop_last()), s.last())
    }
}

/// One network per SSID, the strongest, strongest first.
pub open spec fn dedup(s: Seq<WifiNetwork>) -> Seq<WifiNetwork> {
    sort_by_signal(best_per_ssid(s))
}

proof fn lemma_stronger_prefix_bounds(sorted: Seq<WifiNetwork>, signal: i32, k: int)
    requires
        0 <= k <= sorted.len(),
    ensures
        k <= stronger_prefix(sorted, signal, k) <= sorted.len(),
    decreases sorted.len() - k,
{
    if k < sorted.len() && sorted[k].signal_strength >= signal {
        lemma_stronger_prefix_bounds(sorted, signal, k + 1);
    }
}

fn position_of_ssid(acc: &Vec<WifiNetwork>, ssid: &String) -> (r: Option<usize>)
    ensures
        match r {
            Some(k) => find_ssid(acc@, ssid@, 0) == Some(k as int) && k < acc@.len(),
            None => find_ssid(acc@, ssid@, 0) is None,
        },
{
    let mut k: usize = 0;
    while k < acc.len()
        invariant
            k <= acc@.len(),
            find_ssid(acc@, ssid@, 0) == find_ssid(acc@, ssid@, k as int),
        decreases acc.len() - k,
    {
        if acc[k].ssid == *ssid {
            return Some(k);
        }
        k = k + 1;
    }
    None
}

fn stronger_prefix_exec(sorted: &Vec<WifiNetwork>, signal: i32) -> (r: usize)
    ensures
        r == stronger_prefix(sorted@, signal, 0),
        r <= sorted@.len(),
{
    let mut k: usize = 0;
    while k < sorted.len() && sorted[k].signal_strength >= signal
        invariant
            k <= sorted@.len(),
            stronger_prefix(sorted@, signal, 0) == stronger_prefix(sorted@, signal, k as int),
        decreases sorted.len() - k,
    {
        k = k + 1;
    }
    k
}

/// Keep the entry with the strongest signal for each SSID (the first one
/// seen among equally strong entries), then order the entries by signal,
/// strongest first; entries of equal signal keep the order in which their
/// SSIDs first appeared.
pub fn dedup_by_ssid(networks: &mut Vec<WifiNetwork>)
    ensures
        final(networks)@ == dedup(old(networks)@),
{
    let mut input: Vec<WifiNetwork> = Vec::new();
    std::mem::swap(&mut input, networks);
    let ghost orig = input@;
    let mut best: Vec<WifiNetwork> = Vec::new();
    for net in it: input.into_iter()
        invariant
            it.seq() == orig,
            best@ == best_per_ssid(orig.take(it.index() as int)),
    {
        let ghost i = it.index();
        proof {
            assert(orig.take(i + 1).drop_last() =~= orig.take(i as int));
        }
        match position_of_ssid(&best, &net.ssid) {
            Some(k) => {
                if net.signal_strength > best[k].signal_strength {
                    best.set(k, net);
                }
            },
            None => {
                best.push(net);
            },
        }
    }
    assert(orig.take(orig.len() as int) =~= orig);
    let ghost b0 = best@;
    let mut sorted: Vec<WifiNetwork> = Vec::new();
    for x in it2: best.into_iter()
        invariant
            it2.seq() == b0,
            sorted@ == sort_by_signal(b0.take(it2.index() as int)),
    {
        let ghost i = it2.index();
        proof {
            assert(b0.take(i + 1).drop_last() =~= b0.take(i as int));
        }
        let p = stronger_prefix_exec(&sorted, x.signal_strength);
        let ghost before = sorted@;
        sorted.insert(p, x);
        assert(sorted@ =~= before.take(p as int) + seq![x] + before.skip(p as int));
    }
    assert(b0.take(b0.len() as int) =~= b0);
    *networks = sorted;
}

// ── Scanning procedure ──────────────────────────────────────────────────────

/// The operating system whose scanning tools are used.
#[derive(Debug, Clone, Copy, PartialEq, Eq, Structural)]
pub enum ScanPlatform {
    MacOs,
    Linux,
    Windows,
    Other,
}

/// Where a scan stands.
pub enum ScanState {
    Start,
    FindingInterface,
    ListingPreferred,
    TryingNmcli,
    TryingIwlist,
    RunningNetsh,
    Done,
}

/// What the caller must do next.
pub enum ScanAction {
    /// Run `networksetup -listallhardwareports`.
    ListHardwarePorts,
    /// Run `networksetup -listpreferredwirelessnetworks <interface>`.
    ListPreferredNetworks(String),
    /// Run `nmcli -t -f SSID,SIGNAL,SECURITY device wifi list`.
    RunNmcli,
    /// Run `iwlist scan`.
    RunIwlist,
    /// Run `netsh wlan show networks mode=bssid`.
    RunNetsh,
    /// Stop with this outcome.
    Finish(Result<Vec<WifiNetwork>, WifiError>),
}

/// What the last action produced.
pub enum ScanEvent {
    Begin,
    /// The tool ran: whether it exited successfully, and its standard output
    /// decoded as UTF-8 with invalid sequences replaced; or it could not be
    /// run.
    ToolRan(Result<(bool, String), std::io::Error>),
}

/// The event answers the action pending in state `s`.
pub open spec fn scan_expects(s: ScanState, e: ScanEvent) -> bool {
    match s {
        ScanState::Start => e is Begin,
        ScanState::Done => false,
        _ => e is ToolRan,
    }
}

/// The deduplicated networks of some parse whose networks are `v`.
pub open spec fn deduplicated_from(n: Seq<WifiNetwork>, v: Seq<WifiView>) -> bool {
    exists|p: Seq<WifiNetwork>| wifi_views(p) == v && n == #[trigger] dedup(p)
}

fn dedup_owned(networks: Vec<WifiNetwork>) -> (r: Vec<WifiNetwork>)
    ensures
        r@ == dedup(networks@),
{
    let mut n = networks;
    dedup_by_ssid(&mut n);
    n
}

/// One step of a scan on `platform`.
///
/// macOS lists the preferred networks of the Wi-Fi interface that
/// `networksetup -listallhardwareports` names (`en0` when it names none or
/// cannot run). Linux uses `nmcli` and falls back to `iwlist` when `nmcli`
/// cannot run, fails, or finds nothing. Windows uses `netsh`. Other systems
/// find nothing. A tool that cannot run stops the scan with its error
/// (except as said). The networks found are deduplicated by SSID.
pub fn scan_networks(platform: ScanPlatform, state: ScanState, event: ScanEvent) -> (r: (
    ScanState,
    ScanAction,
))
    requires
        scan_expects(state, event),
    ensures
        match state {
            ScanState::Start => match platform {
                ScanPlatform::MacOs => r.0 is FindingInterface && r.1 is ListHardwarePorts,
                ScanPlatform::Linux => r.0 is TryingNmcli && r.1 is RunNmcli,
                ScanPlatform::Windows => r.0 is RunningNetsh && r.1 is RunNetsh,
                ScanPlatform::Other => r.1 matches ScanAction::Finish(Ok(n)) && n@.len() == 0
                    && r.0 is Done,
            },
            ScanState::FindingInterface => {
                &&& r.0 is ListingPreferred
                &&& r.1 matches ScanAction::ListPreferredNetworks(iface) && iface@ == match event {
                    ScanEvent::ToolRan(Ok((_, text))) => match ports_from(lines(text@), 0, false) {
                        Some(i) => i,
                        None => "en0"@,
                    },
                    _ => "en0"@,
                }
            },
            ScanState::ListingPreferred => match event {
                ScanEvent::ToolRan(Err(e)) => r.0 is Done && r.1 == ScanAction::Finish(
                    Err(WifiError::Subprocess(e)),
                ),
                ScanEvent::ToolRan(Ok((_, text))) => r.1 matches ScanAction::Finish(Ok(n)) && r.0 is Done && deduplicated_from(n@, preferred_from(lines(text@), 0)),
                _ => false,
            },
            ScanState::TryingNmcli => match event {
                ScanEvent::ToolRan(Ok((true, text))) => if nmcli_from(lines(text@), 0).len() > 0 {
                    r.1 matches ScanAction::Finish(Ok(n)) && r.0 is Done && deduplicated_from(
                        n@,
                        nmcli_from(lines(text@), 0),
                    )
                } else {
                    r.0 is TryingIwlist && r.1 is RunIwlist
                },
                _ => r.0 is TryingIwlist && r.1 is RunIwlist,
            },
            ScanState::TryingIwlist => match event {
                ScanEvent::ToolRan(Err(e)) => r.0 is Done && r.1 == ScanAction::Finish(
                    Err(WifiError::Subprocess(e)),
                ),
                ScanEvent::ToolRan(Ok((_, text))) => r.1 matches ScanAction::Finish(Ok(n)) && r.0 is Done && deduplicated_from(n@, iwlist_from(lines(text@), 0, fresh_block(None))),
                _ => false,
            },
            ScanState::RunningNetsh => match event {
                ScanEvent::ToolRan(Err(e)) => r.0 is Done && r.1 == ScanAction::Finish(
                    Err(WifiError::Subprocess(e)),
                ),
                ScanEvent::ToolRan(Ok((_, text))) => r.1 matches ScanAction::Finish(Ok(n)) && r.0 is Done && deduplicated_from(n@, netsh_from(lines(text@), 0, fresh_block(None))),
                _ => false,
            },
            ScanState::Done => false,
        },
{
    match state {
        ScanState::Start => match platform {
            ScanPlatform::MacOs => (ScanState::FindingInterface, ScanAction::ListHardwarePorts),
            ScanPlatform::Linux => (ScanState::TryingNmcli, ScanAction::RunNmcli),
            ScanPlatform::Windows => (ScanState::RunningNetsh, ScanAction::RunNetsh),
            ScanPlatform::Other => (ScanState::Done, ScanAction::Finish(Ok(Vec::new()))),
        },
        ScanState::FindingInterface => {
            let found = match event {
                ScanEvent::ToolRan(Ok((_, text))) => parse_wifi_interface_from_hardware_ports(
                    text.as_str(),
                ),
                _ => None,
            };
            let iface = match found {
                Some(i) => i,
                None => "en0".to_owned(),
            };
            (ScanState::ListingPreferred, ScanAction::ListPreferredNetworks(iface))
        },
        ScanState::ListingPreferred => match event {
            ScanEvent::ToolRan(Err(e)) => (
                ScanState::Done,
                ScanAction::Finish(Err(WifiError::Subprocess(e))),
            ),
            ScanEvent::ToolRan(Ok((_, text))) => match parse_preferred_networks_output(text.as_str()) {
                Ok(n) => (ScanState::Done, ScanAction::Finish(Ok(dedup_owned(n)))),
                Err(e) => (ScanState::Done, ScanAction::Finish(Err(e))),
            },
            _ => (ScanState::Done, ScanAction::Finish(Ok(Vec::new()))),
        },
        ScanState::TryingNmcli => match event {
            ScanEvent::ToolRan(Ok((true, text))) => match parse_nmcli_output(text.as_str()) {
                Ok(n) => {
                    if n.len() > 0 {
                        (ScanState::Done, ScanAction::Finish(Ok(dedup_owned(n))))
                    } else {
                        (ScanState::TryingIwlist, ScanAction::RunIwlist)
                    }
                },
                Err(_) => (ScanState::TryingIwlist, ScanAction::RunIwlist),
            },
            _ => (ScanState::TryingIwlist, ScanAction::RunIwlist),
        },
        ScanState::TryingIwlist => match event {
            ScanEvent::ToolRan(Err(e)) => (
                ScanState::Done,
                ScanAction::Finish(Err(WifiError::Subprocess(e))),
            ),
            ScanEvent::ToolRan(Ok((_, text))) => match parse_iwlist_output(text.as_str()) {
                Ok(n) => (ScanState::Done, ScanAction::Finish(Ok(dedup_owned(n)))),
                Err(e) => (ScanState::Done, ScanAction::Finish(Err(e))),
            },
            _ => (ScanState::Done, ScanAction::Finish(Ok(Vec::new()))),
        },
        ScanState::RunningNetsh => match event {
            ScanEvent::ToolRan(Err(e)) => (
                ScanState::Done,
                ScanAction::Finish(Err(WifiError::Subprocess(e))),
            ),
            ScanEvent::ToolRan(Ok((_, text))) => match parse_netsh_output(text.as_str()) {
                Ok(n) => (ScanState::Done, ScanAction::Finish(Ok(dedup_owned(n)))),
                Err(e) => (ScanState::Done, ScanAction::Finish(Err(e))),
            },
            _ => (ScanState::Done, ScanAction::Finish(Ok(Vec::new()))),
        },
        ScanState::Done => (ScanState::Done, ScanAction::Finish(Ok(Vec::new()))),
    }
}

// ── Laws of deduplication ───────────────────────────────────────────────────

/// Signals never increase along `s`.
pub open spec fn sorted_by_signal(s: Seq<WifiNetwork>) -> bool {
    forall|i: int, j: int|
        0 <= i < j < s.len() ==> #[trigger] s[i].signal_strength >= #[trigger] s[j].signal_strength
}

/// No SSID occurs twice in `s`.
pub open spec fn distinct_ssids(s: Seq<WifiNetwork>) -> bool {
    forall|i: int, j: int| 0 <= i < j < s.len() ==> #[trigger] s[i].ssid@ != #[trigger] s[j].ssid@
}

proof fn lemma_find_ssid(acc: Seq<WifiNetwork>, ssid: Seq<char>, k: int)
    requires
        0 <= k,
    ensures
        match find_ssid(acc, ssid, k) {
            Some(j) => k <= j < acc.len() && acc[j].ssid@ == ssid,
            None => forall|m: int| k <= m < acc.len() ==> #[trigger] acc[m].ssid@ != ssid,
        },
    decreases acc.len() - k,
{
    if k < acc.len() && acc[k].ssid@ != ssid {
        lemma_find_ssid(acc, ssid, k + 1);
    }
}

proof fn lemma_stronger_prefix_split(sorted: Seq<WifiNetwork>, signal: i32, k: int)
    requires
        0 <= k <= sorted.len(),
    ensures
        k <= stronger_prefix(sorted, signal, k) <= sorted.len(),
        forall|m: int|
            k <= m < stronger_prefix(sorted, signal, k) ==> #[trigger] sorted[m].signal_strength
                >= signal,
        stronger_prefix(sorted, signal, k) < sorted.len() ==> sorted[stronger_prefix(
            sorted,
            signal,
            k,
        )].signal_strength < signal,
    decreases sorted.len() - k,
{
    if k < sorted.len() && sorted[k].signal_strength >= signal {
        lemma_stronger_prefix_split(sorted, signal, k + 1);
    }
}

proof fn lemma_insert_by_signal(sorted: Seq<WifiNetwork>, x: WifiNetwork)
    requires
        sorted_by_signal(sorted),
    ensures
        sorted_by_signal(insert_by_signal(sorted, x)),
        insert_by_signal(sorted, x).len() == sorted.len() + 1,
        forall|y: WifiNetwork|
            #[trigger] insert_by_signal(sorted, x).contains(y) <==> (sorted.contains(y) || y == x),
        distinct_ssids(sorted) && (forall|m: int|
            0 <= m < sorted.len() ==> #[trigger] sorted[m].ssid@ != x.ssid@) ==> distinct_ssids(
            insert_by_signal(sorted, x),
        ),
{
    lemma_stronger_prefix_split(sorted, x.signal_strength, 0);
    let p = stronger_prefix(sorted, x.signal_strength, 0);
    let r = insert_by_signal(sorted, x);
    assert(r.len() == sorted.len() + 1);
    assert forall|m: int| 0 <= m < r.len() implies #[trigger] r[m] == (if m < p {
        sorted[m]
    } else if m == p {
        x
    } else {
        sorted[m - 1]
    }) by {}
    assert forall|m: int| p <= m < sorted.len() implies #[trigger] sorted[m].signal_strength
        < x.signal_strength by {
        if m > p {
            assert(sorted[p].signal_strength >= sorted[m].signal_strength);
        }
    }
    assert forall|i: int, j: int| 0 <= i < j < r.len() implies #[trigger] r[i].signal_strength
        >= #[trigger] r[j].signal_strength by {
        if i < p && j < p {
            assert(sorted[i].signal_strength >= sorted[j].signal_strength);
        } else if i < p && j > p {
            assert(sorted[i].signal_strength >= sorted[j - 1].signal_strength);
        } else if i > p {
            assert(sorted[i - 1].signal_strength >= sorted[j - 1].signal_strength);
        }
    }
    assert forall|y: WifiNetwork| #[trigger] r.contains(y) <==> (sorted.contains(y) || y == x) by {
        if r.contains(y) {
            let m = choose|m: int| 0 <= m < r.len() && r[m] == y;
            if m < p {
                assert(sorted[m] == y);
            } else if m > p {
                assert(sorted[m - 1] == y);
            }
        }
        if sorted.contains(y) {
            let m = choose|m: int| 0 <= m < sorted.len() && sorted[m] == y;
            if m < p {
                assert(r[m] == y);
            } else {
                assert(r[m + 1] == y);
            }
        }
        if y == x {
            assert(r[p] == y);
        }
    }
    if distinct_ssids(sorted) && (forall|m: int|
        0 <= m < sorted.len() ==> #[trigger] sorted[m].ssid@ != x.ssid@) {
        assert forall|i: int, j: int| 0 <= i < j < r.len() implies #[trigger] r[i].ssid@
            != #[trigger] r[j].ssid@ by {
            if i < p && j < p {
                assert(sorted[i].ssid@ != sorted[j].ssid@);
            } else if i < p && j > p {
                assert(sorted[i].ssid@ != sorted[j - 1].ssid@);
            } else if i > p {
                assert(sorted[i - 1].ssid@ != sorted[j - 1].ssid@);
            } else if i == p {
                assert(sorted[j - 1].ssid@ != x.ssid@);
            } else {
                assert(sorted[i].ssid@ != x.ssid@);
            }
        }
    }
}

proof fn lemma_sort_by_signal(s: Seq<WifiNetwork>)
    ensures
        sorted_by_signal(sort_by_signal(s)),
        sort_by_signal(s).len() == s.len(),
        forall|y: WifiNetwork| #[trigger] sort_by_signal(s).contains(y) <==> s.contains(y),
        distinct_ssids(s) ==> distinct_ssids(sort_by_signal(s)),
    decreases s.len(),
{
    if s.len() > 0 {
        let dl = s.drop_last();
        let x = s.last();
        lemma_sort_by_signal(dl);
        let t = sort_by_signal(dl);
        lemma_insert_by_signal(t, x);
        assert(s =~= dl.push(x));
        assert forall|y: WifiNetwork| s.contains(y) <==> (dl.contains(y) || y == x) by {
            if s.contains(y) {
                let m = choose|m: int| 0 <= m < s.len() && s[m] == y;
                if m < dl.len() {
                    assert(dl[m] == y);
                }
            }
            if dl.contains(y) {
                let m = choose|m: int| 0 <= m < dl.len() && dl[m] == y;
                assert(s[m] == y);
            }
            if y == x {
                assert(s[s.len() - 1] == y);
            }
        }
        if distinct_ssids(s) {
            assert forall|i: int, j: int| 0 <= i < j < dl.len() implies #[trigger] dl[i].ssid@
                != #[trigger] dl[j].ssid@ by {
                assert(s[i] == dl[i] && s[j] == dl[j]);
            }
            assert forall|m: int| 0 <= m < t.len() implies #[trigger] t[m].ssid@ != x.ssid@ by {
                assert(t.contains(t[m]));
                assert(dl.contains(t[m]));
                let k = choose|k: int| 0 <= k < dl.len() && dl[k] == t[m];
                assert(s[k] == dl[k]);
                assert(s[s.len() - 1] == x);
            }
        }
    }
}

/// The best-per-SSID list has distinct SSIDs, holds only input networks,
/// holds for each of them the strongest of its SSID, and covers every SSID.
pub open spec fn best_invariant(s: Seq<WifiNetwork>, b: Seq<WifiNetwork>) -> bool {
    &&& distinct_ssids(b)
    &&& forall|i: int| 0 <= i < b.len() ==> s.contains(#[trigger] b[i])
    &&& forall|i: int, y: WifiNetwork|
        #![trigger b[i], s.contains(y)]0 <= i < b.len() && s.contains(y) && y.ssid@ == b[i].ssid@ ==> y.signal_strength
            <= b[i].signal_strength
    &&& forall|y: WifiNetwork|
        #[trigger] s.contains(y) ==> exists|i: int| 0 <= i < b.len() && #[trigger] b[i].ssid@ == y.ssid@
}

#[verifier::spinoff_prover]
#[verifier::rlimit(50)]
proof fn lemma_best_per_ssid(s: Seq<WifiNetwork>)
    ensures
        best_invariant(s, best_per_ssid(s)),
    decreases s.len(),
{
    if s.len() > 0 {
        let dl = s.drop_last();
        let x = s.last();
        lemma_best_per_ssid(dl);
        let b = best_per_ssid(dl);
        let nb = best_per_ssid(s);
        assert(s =~= dl.push(x));
        assert(nb == keep_best(b, x));
        assert forall|y: WifiNetwork| s.contains(y) <==> (dl.contains(y) || y == x) by {
            if s.contains(y) {
                let m = choose|m: int| 0 <= m < s.len() && s[m] == y;
                if m < dl.len() {
                    assert(dl[m] == y);
                }
            }
            if dl.contains(y) {
                let m = choose|m: int| 0 <= m < dl.len() && dl[m] == y;
                assert(s[m] == y);
            }
            if y == x {
                assert(s[s.len() - 1] == y);
            }
        }
        lemma_find_ssid(b, x.ssid@, 0);
        match find_ssid(b, x.ssid@, 0) {
            None => {
                assert(nb == b.push(x));
                assert forall|i: int, j: int| 0 <= i < j < nb.len() implies #[trigger] nb[i].ssid@
                    != #[trigger] nb[j].ssid@ by {
                    if j < b.len() {
                        assert(b[i].ssid@ != b[j].ssid@);
                    } else {
                        assert(b[i].ssid@ != x.ssid@);
                    }
                }
                assert forall|i: int| 0 <= i < nb.len() implies s.contains(#[trigger] nb[i]) by {
                    if i < b.len() {
                        assert(dl.contains(b[i]));
                    }
                }
                assert forall|i: int, y: WifiNetwork|
                    #![trigger nb[i], s.contains(y)]0 <= i < nb.len() && s.contains(y) && y.ssid@ == nb[i].ssid@ implies y.signal_strength
                    <= nb[i].signal_strength by {
                    if i < b.len() {
                        if y == x {
                            assert(b[i].ssid@ != x.ssid@);
                        }
                    } else {
                        if y != x {
                            assert(dl.contains(y));
                            let k = choose|k: int| 0 <= k < b.len() && #[trigger] b[k].ssid@ == y.ssid@;
                            assert(b[k].ssid@ != x.ssid@);
                        }
                    }
                }
                assert forall|y: WifiNetwork| #[trigger] s.contains(y) implies exists|i: int|
                    0 <= i < nb.len() && #[trigger] nb[i].ssid@ == y.ssid@ by {
                    if y == x {
                        assert(nb[b.len() as int].ssid@ == y.ssid@);
                    } else {
                        assert(dl.contains(y));
                        let k = choose|k: int| 0 <= k < b.len() && #[trigger] b[k].ssid@ == y.ssid@;
                        assert(nb[k].ssid@ == y.ssid@);
                    }
                }
            },
            Some(k) => {
                if x.signal_strength > b[k].signal_strength {
                    assert(nb == b.update(k, x));
                    assert forall|i: int, j: int| 0 <= i < j < nb.len() implies #[trigger] nb[i].ssid@
                        != #[trigger] nb[j].ssid@ by {
                        assert(b[i].ssid@ != b[j].ssid@);
                    }
                    assert forall|i: int| 0 <= i < nb.len() implies s.contains(#[trigger] nb[i]) by {
                        if i != k {
                            assert(dl.contains(b[i]));
                        }
                    }
                    assert forall|i: int, y: WifiNetwork|
                        #![trigger nb[i], s.contains(y)]0 <= i < nb.len() && s.contains(y) && y.ssid@ == nb[i].ssid@ implies y.signal_strength
                        <= nb[i].signal_strength by {
                        if i != k {
                            if y == x {
                                if i < k {
                                    assert(b[i].ssid@ != b[k].ssid@);
                                } else {
                                    assert(b[k].ssid@ != b[i].ssid@);
                                }
                            }
                        } else {
                            if y != x {
                                assert(dl.contains(y));
                                assert(y.signal_strength <= b[k].signal_strength);
                            }
                        }
                    }
                    assert forall|y: WifiNetwork| #[trigger] s.contains(y) implies exists|i: int|
                        0 <= i < nb.len() && #[trigger] nb[i].ssid@ == y.ssid@ by {
                        if y == x {
                            assert(nb[k].ssid@ == y.ssid@);
                        } else {
                            assert(dl.contains(y));
                            let m = choose|m: int| 0 <= m < b.len() && #[trigger] b[m].ssid@ == y.ssid@;
                            assert(nb[m].ssid@ == y.ssid@);
                        }
                    }
                } else {
                    assert(nb == b);
                    assert forall|i: int| 0 <= i < nb.len() implies s.contains(#[trigger] nb[i]) by {
                        assert(dl.contains(b[i]));
                    }
                    assert forall|i: int, y: WifiNetwork|
                        #![trigger nb[i], s.contains(y)]0 <= i < nb.len() && s.contains(y) && y.ssid@ == nb[i].ssid@ implies y.signal_strength
                        <= nb[i].signal_strength by {
                        if y == x {
                            if i < k {
                                assert(b[i].ssid@ != b[k].ssid@);
                            } else if i > k {
                                assert(b[k].ssid@ != b[i].ssid@);
                            }
                        }
                    }
                    assert forall|y: WifiNetwork| #[trigger] s.contains(y) implies exists|i: int|
                        0 <= i < nb.len() && #[trigger] nb[i].ssid@ == y.ssid@ by {
                        if y == x {
                            assert(nb[k].ssid@ == y.ssid@);
                        } else {
                            assert(dl.contains(y));
                        }
                    }
                }
            },
        }
    }
}

/// After deduplication: signals never increase, no SSID occurs twice, every
/// kept network is one of the input networks and is at least as strong as
/// every input network of its SSID, and every input SSID is kept.
pub proof fn law_dedup(s: Seq<WifiNetwork>)
    ensures
        sorted_by_signal(dedup(s)),
        distinct_ssids(dedup(s)),
        forall|i: int| 0 <= i < dedup(s).len() ==> s.contains(#[trigger] dedup(s)[i]),
        forall|i: int, y: WifiNetwork|
            #![trigger dedup(s)[i], s.contains(y)]0 <= i < dedup(s).len() && s.contains(y) && y.ssid@ == dedup(s)[i].ssid@
                ==> y.signal_strength <= dedup(s)[i].signal_strength,
        forall|y: WifiNetwork|
            #[trigger] s.contains(y) ==> exists|i: int|
                0 <= i < dedup(s).len() && #[trigger] dedup(s)[i].ssid@ == y.ssid@,
{
    let b = best_per_ssid(s);
    let d = dedup(s);
    lemma_best_per_ssid(s);
    lemma_sort_by_signal(b);
    assert forall|i: int| 0 <= i < d.len() implies s.contains(#[trigger] d[i]) by {
        assert(d.contains(d[i]));
        let k = choose|k: int| 0 <= k < b.len() && b[k] == d[i];
        assert(s.contains(b[k]));
    }
    assert forall|i: int, y: WifiNetwork|
        #![trigger d[i], s.contains(y)]0 <= i < d.len() && s.contains(y) && y.ssid@ == d[i].ssid@ implies y.signal_strength
        <= d[i].signal_strength by {
        assert(d.contains(d[i]));
        let k = choose|k: int| 0 <= k < b.len() && b[k] == d[i];
        assert(y.ssid@ == b[k].ssid@);
    }
    assert forall|y: WifiNetwork| #[trigger] s.contains(y) implies exists|i: int|
        0 <= i < d.len() && #[trigger] d[i].ssid@ == y.ssid@ by {
        let k = choose|k: int| 0 <= k < b.len() && #[trigger] b[k].ssid@ == y.ssid@;
        assert(b.contains(b[k]));
        assert(d.contains(b[k]));
        let m = choose|m: int| 0 <= m < d.len() && d[m] == b[k];
        assert(d[m].ssid@ == y.ssid@);
    }
}


#[verifier::spinoff_prover]
proof fn lemma_best_per_ssid_of_distinct(t: Seq<WifiNetwork>)
    requires
        distinct_ssids(t),
    ensures
        best_per_ssid(t) == t,
    decreases t.len(),
{
    if t.len() > 0 {
        let p = t.drop_last();
        assert(distinct_ssids(p)) by {
            assert forall|i: int, j: int| 0 <= i < j < p.len() implies #[trigger] p[i].ssid@
                != #[trigger] p[j].ssid@ by {
                assert(p[i] == t[i] && p[j] == t[j]);
            }
        }
        lemma_best_per_ssid_of_distinct(p);
        let x = t.last();
        lemma_find_ssid(p, x.ssid@, 0);
        if find_ssid(p, x.ssid@, 0) is Some {
            let k = find_ssid(p, x.ssid@, 0)->0;
            assert(p[k] == t[k]);
            assert(t[k].ssid@ != t[t.len() - 1].ssid@);
        }
        assert(find_ssid(p, x.ssid@, 0) is None);
        assert(best_per_ssid(t) == keep_best(best_per_ssid(p), x));
        assert(keep_best(p, x) == p.push(x));
        assert(p.push(x) =~= t);
    }
}

proof fn lemma_stronger_prefix_all(p: Seq<WifiNetwork>, signal: i32, k: int)
    requires
        0 <= k <= p.len(),
        forall|m: int| k <= m < p.len() ==> #[trigger] p[m].signal_strength >= signal,
    ensures
        stronger_prefix(p, signal, k) == p.len(),
    decreases p.len() - k,
{
    if k < p.len() {
        lemma_stronger_prefix_all(p, signal, k + 1);
    }
}

proof fn lemma_sort_by_signal_of_sorted(t: Seq<WifiNetwork>)
    requires
        sorted_by_signal(t),
    ensures
        sort_by_signal(t) == t,
    decreases t.len(),
{
    if t.len() > 0 {
        let p = t.drop_last();
        let x = t.last();
        assert(sorted_by_signal(p)) by {
            assert forall|i: int, j: int| 0 <= i < j < p.len() implies #[trigger] p[i].signal_strength
                >= #[trigger] p[j].signal_strength by {
                assert(p[i] == t[i] && p[j] == t[j]);
            }
        }
        lemma_sort_by_signal_of_sorted(p);
        assert forall|m: int| 0 <= m < p.len() implies #[trigger] p[m].signal_strength
            >= x.signal_strength by {
            assert(p[m] == t[m]);
            assert(t[m].signal_strength >= t[t.len() - 1].signal_strength);
        }
        lemma_stronger_prefix_all(p, x.signal_strength, 0);
        assert(p.take(p.len() as int) + seq![x] + p.skip(p.len() as int) =~= t);
    }
}

/// Deduplicating a deduplicated list changes nothing.
pub proof fn law_dedup_idempotent(s: Seq<WifiNetwork>)
    ensures
        dedup(dedup(s)) == dedup(s),
{
    law_dedup(s);
    let d = dedup(s);
    lemma_best_per_ssid_of_distinct(d);
    lemma_sort_by_signal_of_sorted(d);
}


/// `y` is the first network of `s` with the strongest signal of its SSID:
/// it occurs in `s`, and every earlier network of its SSID is weaker.
pub open spec fn first_strongest(s: Seq<WifiNetwork>, y: WifiNetwork) -> bool {
    exists|p: int|
        0 <= p < s.len() && s[p] == y && forall|q: int|
            0 <= q < p && #[trigger] s[q].ssid@ == y.ssid@ ==> s[q].signal_strength < y.signal_strength
}

proof fn lemma_best_first(s: Seq<WifiNetwork>)
    ensures
        forall|i: int| 0 <= i < best_per_ssid(s).len() ==> first_strongest(s, #[trigger] best_per_ssid(s)[i]),
    decreases s.len(),
{
    if s.len() > 0 {
        let dl = s.drop_last();
        let x = s.last();
        let n = dl.len() as int;
        lemma_best_first(dl);
        lemma_best_per_ssid(dl);
        let b = best_per_ssid(dl);
        let nb = best_per_ssid(s);
        assert(s =~= dl.push(x));
        assert(nb == keep_best(b, x));
        assert forall|y: WifiNetwork| first_strongest(dl, y) implies first_strongest(s, y) by {
            let p = choose|p: int|
                0 <= p < dl.len() && dl[p] == y && forall|q: int|
                    0 <= q < p && #[trigger] dl[q].ssid@ == y.ssid@ ==> dl[q].signal_strength
                        < y.signal_strength;
            assert(s[p] == y);
            assert forall|q: int| 0 <= q < p && #[trigger] s[q].ssid@ == y.ssid@ implies s[q].signal_strength
                < y.signal_strength by {
                assert(s[q] == dl[q]);
            }
        }
        lemma_find_ssid(b, x.ssid@, 0);
        match find_ssid(b, x.ssid@, 0) {
            None => {
                assert(nb == b.push(x));
                assert(first_strongest(s, x)) by {
                    assert(s[n] == x);
                    assert forall|q: int| 0 <= q < n && #[trigger] s[q].ssid@ == x.ssid@ implies s[q].signal_strength
                        < x.signal_strength by {
                        assert(dl.contains(dl[q]));
                        assert(s[q] == dl[q]);
                        let k = choose|k: int| 0 <= k < b.len() && #[trigger] b[k].ssid@ == dl[q].ssid@;
                        assert(b[k].ssid@ != x.ssid@);
                    }
                }
                assert forall|i: int| 0 <= i < nb.len() implies first_strongest(s, #[trigger] nb[i]) by {
                    if i < b.len() {
                        assert(nb[i] == b[i]);
                        assert(first_strongest(dl, b[i]));
                    }
                }
            },
            Some(k) => {
                if x.signal_strength > b[k].signal_strength {
                    assert(nb == b.update(k, x));
                    assert(first_strongest(s, x)) by {
                        assert(s[n] == x);
                        assert forall|q: int| 0 <= q < n && #[trigger] s[q].ssid@ == x.ssid@ implies s[q].signal_strength
                            < x.signal_strength by {
                            assert(s[q] == dl[q]);
                            assert(dl.contains(dl[q]));
                            assert(dl[q].signal_strength <= b[k].signal_strength);
                        }
                    }
                    assert forall|i: int| 0 <= i < nb.len() implies first_strongest(s, #[trigger] nb[i]) by {
                        if i != k {
                            assert(nb[i] == b[i]);
                            assert(first_strongest(dl, b[i]));
                        }
                    }
                } else {
                    assert(nb == b);
                    assert forall|i: int| 0 <= i < nb.len() implies first_strongest(s, #[trigger] nb[i]) by {
                        assert(first_strongest(dl, b[i]));
                    }
                }
            },
        }
    }
}

/// The network kept for an SSID is the first of its equally strongest
/// networks: every earlier network of that SSID in the input is weaker.
pub proof fn law_dedup_keeps_first_strongest(s: Seq<WifiNetwork>)
    ensures
        forall|i: int| 0 <= i < dedup(s).len() ==> first_strongest(s, #[trigger] dedup(s)[i]),
{
    let b = best_per_ssid(s);
    let d = dedup(s);
    lemma_best_first(s);
    lemma_sort_by_signal(b);
    assert forall|i: int| 0 <= i < d.len() implies first_strongest(s, #[trigger] d[i]) by {
        assert(d.contains(d[i]));
        let k = choose|k: int| 0 <= k < b.len() && b[k] == d[i];
        assert(first_strongest(s, b[k]));
    }
}


// ── What the parsers keep of a network's name ───────────────────────────────

/// A preferred-networks line, a tab and then a name, gives exactly one
/// network with that name, whole (inner spaces included), with signal 0 and
/// taken as secured.
pub proof fn law_preferred_line_keeps_name(name: Seq<char>)
    requires
        clean(name),
    ensures
        preferred_line(seq!['\t'] + name) == seq![
            WifiView { ssid: name, signal_strength: 0, secured: true, frequency_ghz: None },
        ],
{
    reveal_strlit("Preferred networks");
    let l = seq!['\t'] + name;
    assert(!starts_with(l, "Preferred networks"@)) by {
        if matches_at(l, "Preferred networks"@, 0) {
            assert(l[0int + 0] == "Preferred networks"@[0]);
        }
    }
    assert(l[1] == name[0]);
    assert(skip_char(l, '\t', 1) == 1);
    assert(skip_char(l, '\t', 0) == 1);
    assert(trim_start_char(l, '\t') =~= name);
    lemma_trim_clean(name);
}

/// An `nmcli -t` line `SSID:SIGNAL:SECURITY` whose SSID holds no colon,
/// backslash or NUL and has no surrounding whitespace gives exactly one
/// network, named by that SSID whole (inner spaces included).
pub proof fn law_nmcli_line_keeps_ssid(ssid: Seq<char>, signal: Seq<char>, security: Seq<char>)
    requires
        clean(ssid),
        lacks(ssid, ':'),
        lacks(ssid, '\\'),
        lacks(ssid, '\u{0}'),
        lacks(signal, ':'),
        lacks(signal, '\\'),
        lacks(security, '\\'),
    ensures
        nmcli_line(ssid + seq![':'] + signal + seq![':'] + security).len() == 1,
        nmcli_line(ssid + seq![':'] + signal + seq![':'] + security)[0].ssid == ssid,
        match parse_i32(trim(signal)) {
            Some(v) => 0 <= v ==> nmcli_line(ssid + seq![':'] + signal + seq![':'] + security)[0].signal_strength
                == v / 2 - 100,
            None => nmcli_line(ssid + seq![':'] + signal + seq![':'] + security)[0].signal_strength
                == -100,
        },
        lacks(security, '\u{0}') ==> (nmcli_line(
            ssid + seq![':'] + signal + seq![':'] + security,
        )[0].secured <==> trim(security) != "--"@ && trim(security).len() > 0),
{
    let line = ssid + seq![':'] + signal + seq![':'] + security;
    let n = ssid.len() as int;
    let m = signal.len() as int;
    assert(lacks(line, '\\')) by {
        assert forall|k: int| 0 <= k < line.len() implies #[trigger] line[k] != '\\' by {
            if k < n {
                assert(line[k] == ssid[k]);
            } else if k == n {
            } else if k < n + 1 + m {
                assert(line[k] == signal[k - n - 1]);
            } else if k == n + 1 + m {
            } else {
                assert(line[k] == security[k - n - 2 - m]);
            }
        }
    }
    lemma_replace_absent(line, seq!['\\', ':'], seq!['\u{0}']);
    assert(line[n] == ':');
    assert forall|k: int| 0 <= k < n implies line[k] != ':' by {
        assert(line[k] == ssid[k]);
    }
    lemma_find_char_first(line, ':', 0, n);
    assert(line[n + 1 + m] == ':');
    assert forall|k: int| n + 1 <= k < n + 1 + m implies line[k] != ':' by {
        assert(line[k] == signal[k - n - 1]);
    }
    lemma_find_char_first(line, ':', n + 1, n + 1 + m);
    let tail = splitn_from(line, 1, ':', n + 2 + m);
    assert(tail == seq![line.subrange(n + 2 + m, line.len() as int)]);
    let mid = splitn_from(line, 2, ':', n + 1);
    assert(mid == seq![line.subrange(n + 1, n + 1 + m)] + tail);
    let parts = splitn_from(line, 3, ':', 0);
    assert(parts == seq![line.subrange(0, n)] + mid);
    assert(line.subrange(0, n) =~= ssid);
    assert(parts.len() == 3);
    assert(parts[0] == ssid);
    lemma_trim_clean(ssid);
    lemma_replace_absent(ssid, seq!['\u{0}'], seq![':']);
    assert(line.subrange(n + 1, n + 1 + m) =~= signal);
    assert(line.subrange(n + 2 + m, line.len() as int) =~= security);
    assert(parts[1] == signal);
    assert(parts[2] == security);
    if lacks(security, '\u{0}') {
        lemma_trim_lacks(security, '\u{0}');
        lemma_replace_absent(trim(security), seq!['\u{0}'], seq![':']);
    }
}

/// In `netsh` output, a line `SSID <n> : <name>` starts a new network named
/// by the whole text after the first colon (inner spaces included); the
/// network before it is finished.
pub proof fn law_netsh_ssid_line(
    ls: Seq<Seq<char>>,
    i: int,
    b: ScanBlock,
    head: Seq<char>,
    name: Seq<char>,
)
    requires
        0 <= i < ls.len(),
        trim(ls[i]) == head + seq![':', ' '] + name,
        starts_with(head, "SSID"@),
        lacks(head, ':'),
        clean(name),
    ensures
        netsh_from(ls, i, b) == emit(b) + netsh_from(ls, i + 1, fresh_block(Some(name))),
{
    reveal_strlit("SSID");
    reveal_strlit("BSSID");
    let t = trim(ls[i]);
    let n = head.len() as int;
    assert(matches_at(t, "SSID"@, 0)) by {
        assert forall|k: int| 0 <= k < "SSID"@.len() implies #[trigger] t[0 + k] == "SSID"@[k] by {
            assert(head[0 + k] == "SSID"@[k]);
            assert(t[k] == head[k]);
        }
    }
    assert(t[n] == ':');
    assert forall|k: int| 0 <= k < n implies t[k] != ':' by {
        assert(t[k] == head[k]);
    }
    lemma_find_char_first(t, ':', 0, n);
    assert(!starts_with(t, "BSSID"@)) by {
        assert(head[0int + 0] == "SSID"@[0]);
        assert(t[0] == head[0]);
        if matches_at(t, "BSSID"@, 0) {
            assert(t[0int + 0] == "BSSID"@[0]);
        }
    }
    assert(value_after_colon(t) =~= seq![' '] + name);
    lemma_trim_after_space(name);
}

/// In `netsh` output, a line that does not start with `SSID` never changes
/// the name of the network being read.
pub proof fn law_netsh_other_lines_keep_ssid(ls: Seq<Seq<char>>, i: int, b: ScanBlock)
    requires
        0 <= i < ls.len(),
        !starts_with(trim(ls[i]), "SSID"@),
    ensures
        exists|b2: ScanBlock| b2.ssid == b.ssid && netsh_from(ls, i, b) == netsh_from(ls, i + 1, b2),
{
    let t = trim(ls[i]);
    if starts_with(t, "Signal"@) && has_char(t, ':') {
        let pct = match parse_i32(trim_end_char(trim(value_after_colon(t)), '%')) {
            Some(v) => v,
            None => 0,
        };
        let b2 = ScanBlock { ssid: b.ssid, signal: percent_to_dbm(pct), secured: b.secured, freq: b.freq };
        assert(netsh_from(ls, i, b) == netsh_from(ls, i + 1, b2));
    } else if starts_with(t, "Authentication"@) && has_char(t, ':') {
        let val = trim(value_after_colon(t));
        let b2 = ScanBlock {
            ssid: b.ssid,
            signal: b.signal,
            secured: !eq_ignore_ascii_case(val, "Open"@) && val.len() != 0,
            freq: b.freq,
        };
        assert(netsh_from(ls, i, b) == netsh_from(ls, i + 1, b2));
    } else {
        assert(netsh_from(ls, i, b) == netsh_from(ls, i + 1, b));
    }
}

/// In `iwlist` output, a line `ESSID:"<name>"` names the current cell's
/// network by the whole quoted name (inner spaces included), keeping its
/// signal, security and frequency.
pub proof fn law_iwlist_essid_line(ls: Seq<Seq<char>>, i: int, b: ScanBlock, name: Seq<char>)
    requires
        0 <= i < ls.len(),
        trim(ls[i]) == "ESSID:"@ + seq!['"'] + name + seq!['"'],
        name.len() > 0,
        name[0] != '"',
        name[name.len() - 1] != '"',
    ensures
        iwlist_from(ls, i, b) == iwlist_from(
            ls,
            i + 1,
            ScanBlock { ssid: Some(name), signal: b.signal, secured: b.secured, freq: b.freq },
        ),
{
    reveal_strlit("ESSID:");
    reveal_strlit("Cell ");
    let p = "ESSID:"@;
    let q = seq!['"'] + name + seq!['"'];
    let t = p + q;
    assert(trim(ls[i]) == t) by {
        assert("ESSID:"@ + seq!['"'] + name + seq!['"'] =~= t);
    }
    assert(!starts_with(t, "Cell "@)) by {
        if matches_at(t, "Cell "@, 0) {
            assert(t[0int + 0] == "Cell "@[0]);
            assert(t[0] == p[0]);
        }
    }
    assert(matches_at(t, p, 0)) by {
        assert forall|k: int| 0 <= k < p.len() implies #[trigger] t[0 + k] == p[k] by {
            assert(t[k] == p[k]);
        }
    }
    assert(!matches_at(t, p, 6)) by {
        if matches_at(t, p, 6) {
            assert(t[6int + 0] == p[0]);
            assert(t[6] == q[0]);
        }
    }
    assert(crate::text::skip_prefixes(t, p, 6) == 6);
    assert(crate::text::skip_prefixes(t, p, 0) == 6);
    assert(trim_start_str(t, p) =~= q);
    assert(clean(q)) by {
        assert(q[0] == '"');
        assert(q[q.len() - 1] == '"');
    }
    lemma_trim_clean(q);
    let len = q.len() as int;
    assert(q[1] == name[0]);
    assert(skip_char(q, '"', 1) == 1);
    assert(skip_char(q, '"', 0) == 1);
    assert(q[len - 2] == name[name.len() - 1]);
    assert(crate::text::back_char(q, '"', 1, len - 1) == len - 1);
    assert(crate::text::back_char(q, '"', 1, len) == len - 1);
    assert(trim_char(q, '"') =~= name);
}

/// In `iwlist` output, a line that starts neither a cell nor an `ESSID:`
/// never changes the name of the network being read.
pub proof fn law_iwlist_other_lines_keep_ssid(ls: Seq<Seq<char>>, i: int, b: ScanBlock)
    requires
        0 <= i < ls.len(),
        !starts_with(trim(ls[i]), "Cell "@),
        !starts_with(trim(ls[i]), "ESSID:"@),
    ensures
        exists|b2: ScanBlock| b2.ssid == b.ssid && iwlist_from(ls, i, b) == iwlist_from(ls, i + 1, b2),
{
    let t = trim(ls[i]);
    if starts_with(t, "Signal level="@) || contains(t, "Signal level="@) {
        let b2 = with_signal_level(t, b);
        assert(iwlist_from(ls, i, b) == iwlist_from(ls, i + 1, b2));
    } else if starts_with(t, "Frequency:"@) {
        match first_word(trim(trim_start_str(t, "Frequency:"@))) {
            Some(v) => {
                let b2 = ScanBlock { ssid: b.ssid, signal: b.signal, secured: b.secured, freq: Some(v) };
                assert(iwlist_from(ls, i, b) == iwlist_from(ls, i + 1, b2));
            },
            None => {
                assert(iwlist_from(ls, i, b) == iwlist_from(ls, i + 1, b));
            },
        }
    } else if starts_with(t, "Encryption key:"@) {
        let b2 = ScanBlock { ssid: b.ssid, signal: b.signal, secured: contains(t, "on"@), freq: b.freq };
        assert(iwlist_from(ls, i, b) == iwlist_from(ls, i + 1, b2));
    } else {
        assert(iwlist_from(ls, i, b) == iwlist_from(ls, i + 1, b));
    }
}

/// A finished block with a non-empty name gives one network with that
/// name.
pub proof fn law_block_emits_its_name(b: ScanBlock)
    requires
        b.ssid matches Some(n) && n.len() > 0,
    ensures
        emit(b).len() == 1,
        Some(emit(b)[0].ssid) == b.ssid,
{
}


/// The header line of the preferred-networks list gives no network.
pub proof fn law_preferred_header_skipped(rest: Seq<char>)
    ensures
        preferred_line("Preferred networks"@ + rest).len() == 0,
{
    let l = "Preferred networks"@ + rest;
    assert(matches_at(l, "Preferred networks"@, 0)) by {
        assert forall|k: int| 0 <= k < "Preferred networks"@.len() implies #[trigger] l[0 + k]
            == "Preferred networks"@[k] by {
            assert(l[k] == "Preferred networks"@[k]);
        }
    }
}

proof fn lemma_value_after_head(t: Seq<char>, head: Seq<char>, v: Seq<char>)
    requires
        t == head + seq![':', ' '] + v,
        lacks(head, ':'),
    ensures
        has_char(t, ':'),
        value_after_colon(t) == seq![' '] + v,
{
    let n = head.len() as int;
    assert(t[n] == ':');
    assert forall|k: int| 0 <= k < n implies t[k] != ':' by {
        assert(t[k] == head[k]);
    }
    lemma_find_char_first(t, ':', 0, n);
    assert(value_after_colon(t) =~= seq![' '] + v);
}

proof fn lemma_starts_with_head(t: Seq<char>, head: Seq<char>, rest: Seq<char>, p: Seq<char>)
    requires
        t == head + rest,
        starts_with(head, p),
    ensures
        starts_with(t, p),
{
    assert forall|k: int| 0 <= k < p.len() implies #[trigger] t[0 + k] == p[k] by {
        assert(head[0 + k] == p[k]);
        assert(t[k] == head[k]);
    }
}

/// In `netsh` output, a line `Signal : <p>%` sets the signal of the network
/// being read to `p / 2 - 100` dBm, and changes nothing else.
pub proof fn law_netsh_signal_line(
    ls: Seq<Seq<char>>,
    i: int,
    b: ScanBlock,
    head: Seq<char>,
    pct: Seq<char>,
    p: i32,
)
    requires
        0 <= i < ls.len(),
        trim(ls[i]) == head + seq![':', ' '] + pct + seq!['%'],
        starts_with(head, "Signal"@),
        lacks(head, ':'),
        clean(pct),
        pct[pct.len() - 1] != '%',
        parse_i32(pct) == Some(p),
        0 <= p,
    ensures
        netsh_from(ls, i, b) == netsh_from(
            ls,
            i + 1,
            ScanBlock { ssid: b.ssid, signal: (p / 2 - 100) as i32, secured: b.secured, freq: b.freq },
        ),
{
    reveal_strlit("Signal");
    reveal_strlit("SSID");
    let t = trim(ls[i]);
    let v = pct + seq!['%'];
    assert(t == head + seq![':', ' '] + v) by {
        assert(head + seq![':', ' '] + pct + seq!['%'] =~= head + seq![':', ' '] + v);
    }
    lemma_value_after_head(t, head, v);
    assert(t =~= head + (seq![':', ' '] + v));
    lemma_starts_with_head(t, head, seq![':', ' '] + v, "Signal"@);
    assert(!starts_with(t, "SSID"@)) by {
        assert(head[0int + 1] == "Signal"@[1]);
        assert(t[1] == head[1]);
        if matches_at(t, "SSID"@, 0) {
            assert(t[0int + 1] == "SSID"@[1]);
        }
    }
    assert(clean(v)) by {
        assert(v[0] == pct[0]);
    }
    lemma_trim_after_space(v);
    let len = v.len() as int;
    assert(v[len - 2] == pct[pct.len() - 1]);
    assert(crate::text::back_char(v, '%', 0, len - 1) == len - 1);
    assert(crate::text::back_char(v, '%', 0, len) == len - 1);
    assert(trim_end_char(v, '%') =~= pct);
}

/// In `netsh` output, a line `Authentication : <kind>` makes the network
/// being read open when the kind is `Open` (in any case) and secured
/// otherwise, and changes nothing else.
pub proof fn law_netsh_authentication_line(
    ls: Seq<Seq<char>>,
    i: int,
    b: ScanBlock,
    head: Seq<char>,
    kind: Seq<char>,
)
    requires
        0 <= i < ls.len(),
        trim(ls[i]) == head + seq![':', ' '] + kind,
        starts_with(head, "Authentication"@),
        lacks(head, ':'),
        clean(kind),
    ensures
        netsh_from(ls, i, b) == netsh_from(
            ls,
            i + 1,
            ScanBlock {
                ssid: b.ssid,
                signal: b.signal,
                secured: !eq_ignore_ascii_case(kind, "Open"@),
                freq: b.freq,
            },
        ),
{
    reveal_strlit("Authentication");
    reveal_strlit("SSID");
    reveal_strlit("Signal");
    let t = trim(ls[i]);
    lemma_value_after_head(t, head, kind);
    assert(t =~= head + (seq![':', ' '] + kind));
    lemma_starts_with_head(t, head, seq![':', ' '] + kind, "Authentication"@);
    assert(head[0int + 0] == "Authentication"@[0]);
    assert(t[0] == head[0]);
    assert(!starts_with(t, "SSID"@)) by {
        if matches_at(t, "SSID"@, 0) {
            assert(t[0int + 0] == "SSID"@[0]);
        }
    }
    assert(!starts_with(t, "Signal"@)) by {
        if matches_at(t, "Signal"@, 0) {
            assert(t[0int + 0] == "Signal"@[0]);
        }
    }
    lemma_trim_after_space(kind);
}


/// In `iwlist` output, a line `Signal level=<v> ...` whose value is the
/// number `v` sets the signal of the current cell to `v` dBm, and changes
/// nothing else.
pub proof fn law_iwlist_signal_line(
    ls: Seq<Seq<char>>,
    i: int,
    b: ScanBlock,
    num: Seq<char>,
    sep: Seq<char>,
    v: i32,
)
    requires
        0 <= i < ls.len(),
        trim(ls[i]) == "Signal level="@ + num + sep,
        is_word(num),
        sep.len() == 0 || crate::text::is_ws(sep[0]),
        parse_i32(num) == Some(v),
        !crate::text::matches_at(num, "dBm"@, num.len() - 3),
    ensures
        iwlist_from(ls, i, b) == iwlist_from(
            ls,
            i + 1,
            ScanBlock { ssid: b.ssid, signal: v, secured: b.secured, freq: b.freq },
        ),
{
    reveal_strlit("Signal level=");
    reveal_strlit("Cell ");
    reveal_strlit("ESSID:");
    reveal_strlit("dBm");
    let p = "Signal level="@;
    let t = trim(ls[i]);
    assert(t =~= p + (num + sep));
    assert forall|k: int| 0 <= k < p.len() implies #[trigger] t[0 + k] == p[k] by {
        assert(t[k] == p[k]);
    }
    assert(matches_at(t, p, 0));
    assert(starts_with(t, p));
    assert(!starts_with(t, "Cell "@)) by {
        if matches_at(t, "Cell "@, 0) {
            assert(t[0int + 0] == "Cell "@[0]);
            assert(t[0] == p[0]);
        }
    }
    assert(!starts_with(t, "ESSID:"@)) by {
        if matches_at(t, "ESSID:"@, 0) {
            assert(t[0int + 0] == "ESSID:"@[0]);
            assert(t[0] == p[0]);
        }
    }
    assert(find_from(t, p, 0) == Some(0int));
    assert(t.subrange(p.len() as int, t.len() as int) =~= num + sep);
    lemma_first_word_of_word(num, sep);
    assert(crate::text::back_suffixes(num, "dBm"@, num.len() as int) == num.len());
    assert(trim_end_str(num, "dBm"@) =~= num);
}

/// In `iwlist` output, a line `Frequency:<f> ...` keeps the frequency word
/// `f` for the current cell, and changes nothing else.
pub proof fn law_iwlist_frequency_line(
    ls: Seq<Seq<char>>,
    i: int,
    b: ScanBlock,
    f: Seq<char>,
    sep: Seq<char>,
)
    requires
        0 <= i < ls.len(),
        trim(ls[i]) == "Frequency:"@ + f + sep,
        is_word(f),
        sep.len() == 0 || crate::text::is_ws(sep[0]),
        clean(f + sep),
        lacks(f + sep, 'S'),
        f[0] != 'F',
    ensures
        iwlist_from(ls, i, b) == iwlist_from(
            ls,
            i + 1,
            ScanBlock { ssid: b.ssid, signal: b.signal, secured: b.secured, freq: Some(f) },
        ),
{
    reveal_strlit("Frequency:");
    reveal_strlit("Cell ");
    reveal_strlit("ESSID:");
    reveal_strlit("Signal level=");
    let p = "Frequency:"@;
    let t = trim(ls[i]);
    assert(t =~= p + (f + sep));
    assert forall|k: int| 0 <= k < p.len() implies #[trigger] t[0 + k] == p[k] by {
        assert(t[k] == p[k]);
    }
    assert(matches_at(t, p, 0));
    assert(!starts_with(t, "Cell "@)) by {
        if matches_at(t, "Cell "@, 0) {
            assert(t[0int + 0] == "Cell "@[0]);
            assert(t[0] == p[0]);
        }
    }
    assert(!starts_with(t, "ESSID:"@)) by {
        if matches_at(t, "ESSID:"@, 0) {
            assert(t[0int + 0] == "ESSID:"@[0]);
            assert(t[0] == p[0]);
        }
    }
    assert(!starts_with(t, "Signal level="@)) by {
        if matches_at(t, "Signal level="@, 0) {
            assert(t[0int + 0] == "Signal level="@[0]);
            assert(t[0] == p[0]);
        }
    }
    assert(!contains(t, "Signal level="@)) by {
        assert(lacks(t, 'S')) by {
            assert forall|k: int| 0 <= k < t.len() implies #[trigger] t[k] != 'S' by {
                if k < p.len() {
                    assert(t[k] == p[k]);
                } else {
                    assert(t[k] == (f + sep)[k - p.len()]);
                }
            }
        }
        assert("Signal level="@[0] == 'S');
        crate::text::lemma_find_from_absent(t, "Signal level="@, 0);
    }
    assert(t[p.len() as int] == f[0]);
    assert(!matches_at(t, p, p.len() as int)) by {
        if matches_at(t, p, p.len() as int) {
            assert(t[p.len() as int + 0] == p[0]);
        }
    }
    assert(crate::text::skip_prefixes(t, p, p.len() as int) == p.len());
    assert(crate::text::skip_prefixes(t, p, 0) == p.len());
    assert(trim_start_str(t, p) =~= f + sep);
    lemma_trim_clean(f + sep);
    lemma_first_word_of_word(f, sep);
}


proof fn lemma_labelled_line(t: Seq<char>, label: Seq<char>, value: Seq<char>)
    requires
        t == label + seq![' '] + value,
        clean(value),
    ensures
        starts_with(t, label),
        trim(t.subrange(label.len() as int, t.len() as int)) == value,
{
    assert forall|k: int| 0 <= k < label.len() implies #[trigger] t[0 + k] == label[k] by {
        assert(t[k] == label[k]);
    }
    assert(t.subrange(label.len() as int, t.len() as int) =~= seq![' '] + value);
    lemma_trim_after_space(value);
}

/// In `networksetup -listallhardwareports` output, a `Hardware Port:` line
/// naming the Wi-Fi port (`Wi-Fi` or `AirPort`, in any case) followed by a
/// `Device:` line gives that device, whatever came before.
pub proof fn law_wifi_port_device(ls: Seq<Seq<char>>, i: int, in_wifi: bool, port: Seq<char>, dev: Seq<char>)
    requires
        0 <= i,
        i + 1 < ls.len(),
        trim(ls[i]) == "Hardware Port:"@ + seq![' '] + port,
        clean(port),
        eq_ignore_ascii_case(port, "wi-fi"@) || eq_ignore_ascii_case(port, "airport"@),
        trim(ls[i + 1]) == "Device:"@ + seq![' '] + dev,
        clean(dev),
    ensures
        ports_from(ls, i, in_wifi) == Some(dev),
{
    reveal_strlit("Hardware Port:");
    reveal_strlit("Device:");
    lemma_labelled_line(trim(ls[i]), "Hardware Port:"@, port);
    let t2 = trim(ls[i + 1]);
    lemma_labelled_line(t2, "Device:"@, dev);
    assert(!starts_with(t2, "Hardware Port:"@)) by {
        assert(t2[0] == "Device:"@[0]);
        if matches_at(t2, "Hardware Port:"@, 0) {
            assert(t2[0int + 0] == "Hardware Port:"@[0]);
        }
    }
    let t = trim(ls[i]);
    let p = trim(t.subrange("Hardware Port:"@.len() as int, t.len() as int));
    assert(p == port);
    assert(ports_from(ls, i, in_wifi) == ports_from(ls, i + 1, true));
    assert(ports_from(ls, i + 1, true) == Some(trim(t2.subrange("Device:"@.len() as int, t2.len() as int))));
}

/// In `networksetup -listallhardwareports` output, the `Device:` line of a
/// port that is not Wi-Fi is never taken: the search goes on after it.
pub proof fn law_other_port_device_skipped(ls: Seq<Seq<char>>, i: int, in_wifi: bool, port: Seq<char>, dev: Seq<char>)
    requires
        0 <= i,
        i + 1 < ls.len(),
        trim(ls[i]) == "Hardware Port:"@ + seq![' '] + port,
        clean(port),
        !eq_ignore_ascii_case(port, "wi-fi"@),
        !eq_ignore_ascii_case(port, "airport"@),
        trim(ls[i + 1]) == "Device:"@ + seq![' '] + dev,
        clean(dev),
    ensures
        ports_from(ls, i, in_wifi) == ports_from(ls, i + 2, false),
{
    reveal_strlit("Hardware Port:");
    reveal_strlit("Device:");
    lemma_labelled_line(trim(ls[i]), "Hardware Port:"@, port);
    let t2 = trim(ls[i + 1]);
    lemma_labelled_line(t2, "Device:"@, dev);
    assert(!starts_with(t2, "Hardware Port:"@)) by {
        assert(t2[0] == "Device:"@[0]);
        if matches_at(t2, "Hardware Port:"@, 0) {
            assert(t2[0int + 0] == "Hardware Port:"@[0]);
        }
    }
    let t = trim(ls[i]);
    let p = trim(t.subrange("Hardware Port:"@.len() as int, t.len() as int));
    assert(p == port);
    assert(ports_from(ls, i, in_wifi) == ports_from(ls, i + 1, false));
    assert(ports_from(ls, i + 1, false) == ports_from(ls, i + 2, false));
}

} // verus!
