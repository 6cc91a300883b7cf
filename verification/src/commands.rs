//! The values that the desktop front end receives: drives, SSH keys and
//! Wi-Fi networks as it shows them.
use vstd::prelude::*;

use crate::device_enumerator;
use crate::text::{chars_of, trim, trim_chars, string_from_chars};
use crate::wifi_scanner::{wifi_views, WifiNetwork, WifiView};

verus! {

// ── Drives ──────────────────────────────────────────────────────────────────

/// A removable drive as the front end lists it.
#[derive(Debug, Clone)]
pub struct Drive {
    pub path: String,
    pub name: String,
    pub size_bytes: u64,
    pub removable: bool,
}

impl Drive {
    /// The front end's view of an enumerated drive: its display name becomes
    /// its name.
    pub fn from_enumerated(d: device_enumerator::Drive) -> (r: Drive)
        ensures
            r.path@ == d.path@,
            r.name@ == d.display_name@,
            r.size_bytes == d.size_bytes,
            r.removable == d.removable,
    {
        Drive { path: d.path, name: d.display_name, size_bytes: d.size_bytes, removable: d.removable }
    }
}

// ── SSH keys ────────────────────────────────────────────────────────────────

/// A public key file offered to the SSH key picker.
#[derive(Debug, Clone)]
pub struct SshKey {
    pub name: String,
    pub content: String,
}

/// A file found in the user's `.ssh` directory.
pub struct SshKeyCandidate {
    /// The file name, or empty when it is not UTF-8.
    pub name: String,
    /// The file name's extension, when it has one that is UTF-8.
    pub extension: Option<String>,
    /// The file's text, when it could be read as UTF-8.
    pub content: Option<String>,
}

/// The key that a candidate file gives: a `.pub` file whose trimmed text
/// is not empty.
pub open spec fn candidate_key(c: SshKeyCandidate) -> Seq<(Seq<char>, Seq<char>)> {
    match (c.extension, c.content) {
        (Some(ext), Some(text)) => if ext@ == "pub"@ && trim(text@).len() > 0 {
            seq![(c.name@, trim(text@))]
        } else {
            Seq::empty()
        },
        _ => Seq::empty(),
    }
}

/// The keys of the candidates `cs[i..]`, in order.
pub open spec fn candidate_keys(cs: Seq<SshKeyCandidate>, i: int) -> Seq<(Seq<char>, Seq<char>)>
    decreases cs.len() - i,
{
    if i < 0 || i >= cs.len() {
        Seq::empty()
    } else {
        candidate_key(cs[i]) + candidate_keys(cs, i + 1)
    }
}

/// `a` sorts before `b`: lexicographic order of the characters (for UTF-8
/// text, the order of the bytes).
pub open spec fn name_less(a: Seq<char>, b: Seq<char>) -> bool
    decreases a.len(),
{
    if b.len() == 0 {
        false
    } else if a.len() == 0 {
        true
    } else if a[0] < b[0] {
        true
    } else if a[0] > b[0] {
        false
    } else {
        name_less(a.drop_first(), b.drop_first())
    }
}

/// First index at or after `k` whose name sorts after `name`.
pub open spec fn name_position(sorted: Seq<(Seq<char>, Seq<char>)>, name: Seq<char>, k: int) -> int
    decreases sorted.len() - k,
{
    if k < 0 || k >= sorted.len() || name_less(name, sorted[k].0) {
        k
    } else {
        name_position(sorted, name, k + 1)
    }
}

/// Stable sort by name.
pub open spec fn sort_by_name(s: Seq<(Seq<char>, Seq<char>)>) -> Seq<(Seq<char>, Seq<char>)>
    decreases s.len(),
{
    if s.len() == 0 {
        s
    } else {
        let t = sort_by_name(s.drop_last());
        let p = name_position(t, s.last().0, 0);
        t.take(p) + seq![s.last()] + t.skip(p)
    }
}

pub open spec fn key_views(k: Seq<SshKey>) -> Seq<(Seq<char>, Seq<char>)> {
    k.map_values(|x: SshKey| (x.name@, x.content@))
}

fn name_less_exec(a: &[char], b: &[char]) -> (r: bool)
    ensures
        r == name_less(a@, b@),
{
    let mut i: usize = 0;
    assert(a@.skip(0) =~= a@ && b@.skip(0) =~= b@);
    while i < a.len() && i < b.len() && a[i] == b[i]
        invariant
            i <= a@.len(),
            i <= b@.len(),
            name_less(a@, b@) == name_less(a@.skip(i as int), b@.skip(i as int)),
        decreases a.len() - i,
    {
        assert(a@.skip(i as int).drop_first() =~= a@.skip(i + 1));
        assert(b@.skip(i as int).drop_first() =~= b@.skip(i + 1));
        i = i + 1;
    }
    if i == b.len() {
        assert(b@.skip(i as int).len() == 0);
        false
    } else if i == a.len() {
        assert(a@.skip(i as int).len() == 0);
        true
    } else {
        assert(a@.skip(i as int)[0] == a@[i as int] && b@.skip(i as int)[0] == b@[i as int]);
        a[i] < b[i]
    }
}

fn name_position_exec(sorted: &Vec<SshKey>, name: &[char]) -> (r: usize)
    ensures
        r == name_position(key_views(sorted@), name@, 0),
        r <= sorted@.len(),
{
    let mut k: usize = 0;
    while k < sorted.len() && !name_less_exec(name, chars_of(sorted[k].name.as_str()).as_slice())
        invariant
            k <= sorted@.len(),
            name_position(key_views(sorted@), name@, 0) == name_position(
                key_views(sorted@),
                name@,
                k as int,
            ),
        decreases sorted.len() - k,
    {
        k = k + 1;
    }
    k
}

/// The SSH keys among the files of the user's `.ssh` directory: the `.pub`
/// files whose text is not blank, with the text trimmed, ordered by file
/// name.
pub fn collect_ssh_keys(candidates: Vec<SshKeyCandidate>) -> (r: Vec<SshKey>)
    ensures
        key_views(r@) == sort_by_name(candidate_keys(candidates@, 0)),
{
    let ghost cs = candidates@;
    let pub_ext = "pub".to_owned();
    let mut keys: Vec<SshKey> = Vec::new();
    let mut i: usize = 0;
    while i < candidates.len()
        invariant
            i <= candidates@.len(),
            cs == candidates@,
            pub_ext@ == "pub"@,
            key_views(keys@) + candidate_keys(cs, i as int) == candidate_keys(cs, 0),
        decreases candidates.len() - i,
    {
        let c = &candidates[i];
        let ghost before = keys@;
        match (&c.extension, &c.content) {
            (Some(ext), Some(text)) => {
                let trimmed = trim_chars(chars_of(text.as_str()).as_slice());
                if *ext == pub_ext && trimmed.len() > 0 {
                    keys.push(SshKey { name: c.name.clone(), content: string_from_chars(trimmed.as_slice()) });
                    assert(key_views(keys@) =~= key_views(before) + candidate_key(cs[i as int]));
                } else {
                    assert(key_views(keys@) =~= key_views(before) + candidate_key(cs[i as int]));
                }
            },
            _ => {
                assert(key_views(keys@) =~= key_views(before) + candidate_key(cs[i as int]));
            },
        }
        i = i + 1;
    }
    assert(key_views(keys@) + Seq::<(Seq<char>, Seq<char>)>::empty() =~= key_views(keys@));
    let ghost k0 = key_views(keys@);
    let mut sorted: Vec<SshKey> = Vec::new();
    let mut j: usize = 0;
    let n = keys.len();
    for x in it: keys.into_iter()
        invariant
            key_views(it.seq()) == k0,
            key_views(sorted@) == sort_by_name(k0.take(it.index() as int)),
    {
        let ghost idx = it.index();
        proof {
            assert(k0.take(idx + 1).drop_last() =~= k0.take(idx as int));
            assert(k0[idx as int] == (x.name@, x.content@));
        }
        let p = name_position_exec(&sorted, chars_of(x.name.as_str()).as_slice());
        let ghost before = sorted@;
        sorted.insert(p, x);
        assert(sorted@ =~= before.take(p as int) + seq![x] + before.skip(p as int));
        assert(key_views(sorted@) =~= key_views(before).take(p as int) + seq![(x.name@, x.content@)]
            + key_views(before).skip(p as int));
    }
    assert(k0.take(k0.len() as int) =~= k0);
    sorted
}

// ── Wi-Fi networks ──────────────────────────────────────────────────────────

/// The networks that the picker shows: those with a non-empty SSID, in
/// order.
pub open spec fn visible_networks(s: Seq<WifiView>, i: int) -> Seq<WifiView>
    decreases s.len() - i,
{
    if i < 0 || i >= s.len() {
        Seq::empty()
    } else if s[i].ssid.len() == 0 {
        visible_networks(s, i + 1)
    } else {
        seq![s[i]] + visible_networks(s, i + 1)
    }
}

/// Drops the networks whose SSID is empty.
pub fn named_networks(networks: Vec<WifiNetwork>) -> (r: Vec<WifiNetwork>)
    ensures
        wifi_views(r@) == visible_networks(wifi_views(networks@), 0),
{
    let ghost v = wifi_views(networks@);
    let mut out: Vec<WifiNetwork> = Vec::new();
    for n in it: networks.into_iter()
        invariant
            wifi_views(it.seq()) == v,
            wifi_views(out@) + visible_networks(v, it.index() as int) == visible_networks(v, 0),
    {
        let ghost idx = it.index();
        proof {
            assert(v[idx as int] == n@);
        }
        let ghost before = out@;
        if n.ssid.as_str().is_empty() {
            assert(wifi_views(out@) =~= wifi_views(before));
        } else {
            out.push(n);
            assert(wifi_views(out@) =~= wifi_views(before) + seq![v[idx as int]]);
        }
    }
    assert(wifi_views(out@) + Seq::<WifiView>::empty() =~= wifi_views(out@));
    out
}


// ── Laws ────────────────────────────────────────────────────────────────────

proof fn lemma_name_less_asymmetric(a: Seq<char>, b: Seq<char>)
    requires
        name_less(a, b),
    ensures
        !name_less(b, a),
    decreases a.len(),
{
    if a.len() > 0 && b.len() > 0 && a[0] == b[0] {
        lemma_name_less_asymmetric(a.drop_first(), b.drop_first());
    }
}

proof fn lemma_name_less_transitive(a: Seq<char>, b: Seq<char>, c: Seq<char>)
    requires
        name_less(a, b),
        name_less(b, c),
    ensures
        name_less(a, c),
    decreases a.len(),
{
    if a.len() > 0 && b.len() > 0 && c.len() > 0 && a[0] == b[0] && b[0] == c[0] {
        lemma_name_less_transitive(a.drop_first(), b.drop_first(), c.drop_first());
    }
}

/// No name of `s` sorts after a later one.
pub open spec fn sorted_by_name(s: Seq<(Seq<char>, Seq<char>)>) -> bool {
    forall|i: int, j: int| 0 <= i < j < s.len() ==> !name_less(#[trigger] s[j].0, #[trigger] s[i].0)
}

proof fn lemma_name_position(t: Seq<(Seq<char>, Seq<char>)>, name: Seq<char>, k: int)
    requires
        0 <= k <= t.len(),
    ensures
        k <= name_position(t, name, k) <= t.len(),
        forall|m: int| k <= m < name_position(t, name, k) ==> !name_less(name, #[trigger] t[m].0),
        name_position(t, name, k) < t.len() ==> name_less(name, t[name_position(t, name, k)].0),
    decreases t.len() - k,
{
    if k < t.len() && !name_less(name, t[k].0) {
        lemma_name_position(t, name, k + 1);
    }
}

proof fn lemma_sort_by_name(s: Seq<(Seq<char>, Seq<char>)>)
    ensures
        sorted_by_name(sort_by_name(s)),
        sort_by_name(s).to_multiset() == s.to_multiset(),
    decreases s.len(),
{
    broadcast use vstd::seq_lib::group_to_multiset_ensures;

    if s.len() > 0 {
        let t = sort_by_name(s.drop_last());
        let x = s.last();
        lemma_sort_by_name(s.drop_last());
        lemma_name_position(t, x.0, 0);
        let p = name_position(t, x.0, 0);
        let r = t.take(p) + seq![x] + t.skip(p);
        assert(r =~= t.insert(p, x));
        assert(s =~= s.drop_last().push(x));
        assert forall|i: int, j: int| 0 <= i < j < r.len() implies !name_less(
            #[trigger] r[j].0,
            #[trigger] r[i].0,
        ) by {
            if j < p {
                assert(r[i] == t[i] && r[j] == t[j]);
            } else if j == p {
                assert(r[i] == t[i] && r[j] == x);
            } else if i < p {
                assert(r[i] == t[i] && r[j] == t[j - 1]);
                if name_less(t[j - 1].0, t[i].0) {
                    assert(!name_less(x.0, t[i].0));
                    assert(!name_less(t[j - 1].0, t[p].0) || j - 1 == p);
                    if j - 1 == p {
                        lemma_name_less_asymmetric(x.0, t[p].0);
                        lemma_name_less_transitive(t[p].0, t[i].0, x.0);
                    } else {
                        lemma_name_less_asymmetric(x.0, t[p].0);
                        lemma_name_less_transitive(t[j - 1].0, t[i].0, x.0);
                    }
                }
            } else if i == p {
                assert(r[i] == x && r[j] == t[j - 1]);
                if name_less(t[j - 1].0, x.0) {
                    if j - 1 > p {
                        assert(!name_less(t[j - 1].0, t[p].0));
                        lemma_name_less_transitive(t[j - 1].0, x.0, t[p].0);
                    } else {
                        lemma_name_less_asymmetric(x.0, t[p].0);
                    }
                }
            } else {
                assert(r[i] == t[i - 1] && r[j] == t[j - 1]);
            }
        }
    }
}

/// The SSH keys come out ordered by name, and they are exactly the keys of
/// the candidates, each as often as it occurs there.
pub proof fn law_ssh_keys_sorted(candidates: Seq<SshKeyCandidate>)
    ensures
        sorted_by_name(sort_by_name(candidate_keys(candidates, 0))),
        sort_by_name(candidate_keys(candidates, 0)).to_multiset() == candidate_keys(
            candidates,
            0,
        ).to_multiset(),
{
    lemma_sort_by_name(candidate_keys(candidates, 0));
}

proof fn lemma_visible_networks(s: Seq<WifiView>, i: int)
    requires
        0 <= i <= s.len(),
    ensures
        visible_networks(s, i) == s.subrange(i, s.len() as int).filter(
            |w: WifiView| w.ssid.len() > 0,
        ),
    decreases s.len() - i,
{
    let p = |w: WifiView| w.ssid.len() > 0;
    let sub = s.subrange(i, s.len() as int);
    if i == s.len() {
        assert(sub =~= Seq::<WifiView>::empty());
        assert(sub.filter(p) =~= Seq::<WifiView>::empty());
    } else {
        lemma_visible_networks(s, i + 1);
        let rest = s.subrange(i + 1, s.len() as int);
        assert(sub =~= seq![s[i]] + rest);
        rest.lemma_filter_prepend(s[i], p);
        assert(Seq::<WifiView>::empty() + rest.filter(p) =~= rest.filter(p));
    }
}

/// The picker's networks are the scanned ones with a non-empty SSID, in
/// order.
pub proof fn law_named_networks_filter(s: Seq<WifiView>)
    ensures
        visible_networks(s, 0) == s.filter(|w: WifiView| w.ssid.len() > 0),
{
    lemma_visible_networks(s, 0);
    assert(s.subrange(0, s.len() as int) =~= s);
}

} // verus!
