//! Character-sequence operations shared by the parsers of this crate.
//!
//! Every operation is stated over `Seq<char>` by a spec function and
//! implemented over `&[char]`; the spec functions follow the behaviour of the
//! corresponding `str` methods of the standard library.
use vstd::prelude::*;

verus! {

// ── conversions ─────────────────────────────────────────────────────────────

/// The characters of `s`, in order.
pub fn chars_of(s: &str) -> (r: Vec<char>)
    ensures
        r@ == s@,
{
    let mut r: Vec<char> = Vec::new();
    for c in it: s.chars()
        invariant
            r@ == it.seq().take(it.index() as int),
            it.seq() == s@,
    {
        r.push(c);
    }
    r
}

/// Collects characters into a `String` (std's `FromIterator<char>`).
#[verifier::external_body]
pub(crate) fn string_from_chars(chars: &[char]) -> (r: String)
    ensures
        r@ == chars@,
{
    chars.iter().collect()
}

/// A copy of `s[lo..hi]`.
pub fn copy_range(s: &[char], lo: usize, hi: usize) -> (r: Vec<char>)
    requires
        lo <= hi <= s@.len(),
    ensures
        r@ == s@.subrange(lo as int, hi as int),
{
    let mut r: Vec<char> = Vec::new();
    let mut i = lo;
    while i < hi
        invariant
            lo <= i <= hi <= s@.len(),
            r@ == s@.subrange(lo as int, i as int),
        decreases hi - i,
    {
        r.push(s[i]);
        i = i + 1;
    }
    r
}

/// Appends `t` to `v`.
pub fn push_all(v: &mut Vec<char>, t: &[char])
    ensures
        final(v)@ == old(v)@ + t@,
{
    let mut i: usize = 0;
    while i < t.len()
        invariant
            i <= t@.len(),
            v@ == old(v)@ + t@.subrange(0, i as int),
        decreases t.len() - i,
    {
        v.push(t[i]);
        i = i + 1;
    }
}

/// Whether two character sequences are equal.
pub fn chars_eq(a: &[char], b: &[char]) -> (r: bool)
    ensures
        r == (a@ == b@),
{
    if a.len() != b.len() {
        return false;
    }
    let mut i: usize = 0;
    while i < a.len()
        invariant
            a@.len() == b@.len(),
            i <= a@.len(),
            forall|k: int| 0 <= k < i ==> a@[k] == b@[k],
        decreases a.len() - i,
    {
        if a[i] != b[i] {
            return false;
        }
        i = i + 1;
    }
    assert(a@ =~= b@);
    true
}

// ── whitespace and trimming ─────────────────────────────────────────────────

/// Unicode `White_Space`, the property behind `char::is_whitespace`.
pub open spec fn is_ws(c: char) -> bool {
    ||| ('\u{9}' <= c && c <= '\u{d}')
    ||| c == ' '
    ||| c == '\u{85}'
    ||| c == '\u{a0}'
    ||| c == '\u{1680}'
    ||| ('\u{2000}' <= c && c <= '\u{200a}')
    ||| c == '\u{2028}'
    ||| c == '\u{2029}'
    ||| c == '\u{202f}'
    ||| c == '\u{205f}'
    ||| c == '\u{3000}'
}

pub fn is_whitespace(c: char) -> (r: bool)
    ensures
        r == is_ws(c),
{
    ('\u{9}' <= c && c <= '\u{d}') || c == ' ' || c == '\u{85}' || c == '\u{a0}' || c
        == '\u{1680}' || ('\u{2000}' <= c && c <= '\u{200a}') || c == '\u{2028}' || c
        == '\u{2029}' || c == '\u{202f}' || c == '\u{205f}' || c == '\u{3000}'
}

/// First index at or after `i` that does not hold whitespace.
pub open spec fn skip_ws(s: Seq<char>, i: int) -> int
    decreases s.len() - i,
{
    if 0 <= i < s.len() && is_ws(s[i]) {
        skip_ws(s, i + 1)
    } else {
        i
    }
}

/// Last end (at or before `j`, not before `lo`) that follows no whitespace.
pub open spec fn back_ws(s: Seq<char>, lo: int, j: int) -> int
    decreases j - lo,
{
    if lo < j <= s.len() && is_ws(s[j - 1]) {
        back_ws(s, lo, j - 1)
    } else {
        j
    }
}

/// `str::trim`.
pub open spec fn trim(s: Seq<char>) -> Seq<char> {
    let a = skip_ws(s, 0);
    s.subrange(a, back_ws(s, a, s.len() as int))
}

pub proof fn lemma_skip_ws_bounds(s: Seq<char>, i: int)
    requires
        0 <= i <= s.len(),
    ensures
        i <= skip_ws(s, i) <= s.len(),
    decreases s.len() - i,
{
    if i < s.len() && is_ws(s[i]) {
        lemma_skip_ws_bounds(s, i + 1);
    }
}

pub proof fn lemma_back_ws_bounds(s: Seq<char>, lo: int, j: int)
    requires
        0 <= lo <= j <= s.len(),
    ensures
        lo <= back_ws(s, lo, j) <= j,
    decreases j - lo,
{
    if lo < j && is_ws(s[j - 1]) {
        lemma_back_ws_bounds(s, lo, j - 1);
    }
}

pub fn trim_chars(s: &[char]) -> (r: Vec<char>)
    ensures
        r@ == trim(s@),
{
    let mut a: usize = 0;
    while a < s.len() && is_whitespace(s[a])
        invariant
            a <= s@.len(),
            skip_ws(s@, 0) == skip_ws(s@, a as int),
        decreases s.len() - a,
    {
        a = a + 1;
    }
    let mut b: usize = s.len();
    while b > a && is_whitespace(s[b - 1])
        invariant
            a <= b <= s@.len(),
            skip_ws(s@, 0) == a,
            back_ws(s@, a as int, s@.len() as int) == back_ws(s@, a as int, b as int),
        decreases b,
    {
        b = b - 1;
    }
    copy_range(s, a, b)
}

// ── prefixes, occurrences, searching ────────────────────────────────────────

/// `p` occurs in `s` at index `i`.
pub open spec fn matches_at(s: Seq<char>, p: Seq<char>, i: int) -> bool {
    &&& 0 <= i
    &&& i + p.len() <= s.len()
    &&& forall|k: int| 0 <= k < p.len() ==> #[trigger] s[i + k] == p[k]
}

/// `str::starts_with`.
pub open spec fn starts_with(s: Seq<char>, p: Seq<char>) -> bool {
    matches_at(s, p, 0)
}

pub fn match_at(s: &[char], p: &[char], i: usize) -> (r: bool)
    ensures
        r == matches_at(s@, p@, i as int),
{
    if i > s.len() || p.len() > s.len() - i {
        return false;
    }
    let mut k: usize = 0;
    while k < p.len()
        invariant
            i + p@.len() <= s.len(),
            k <= p@.len(),
            forall|m: int| 0 <= m < k ==> #[trigger] s@[i + m] == p@[m],
        decreases p.len() - k,
    {
        if s[i + k] != p[k] {
            assert(s@[i + k] != p@[k as int]);
            return false;
        }
        k = k + 1;
    }
    true
}

pub fn starts_with_chars(s: &[char], p: &[char]) -> (r: bool)
    ensures
        r == starts_with(s@, p@),
{
    match_at(s, p, 0)
}

/// First index at or after `i` where `p` occurs (`str::find` from `i`).
pub open spec fn find_from(s: Seq<char>, p: Seq<char>, i: int) -> Option<int>
    decreases s.len() - i,
{
    if i < 0 || i + p.len() > s.len() {
        None
    } else if matches_at(s, p, i) {
        Some(i)
    } else {
        find_from(s, p, i + 1)
    }
}

/// `str::contains` with a string pattern.
pub open spec fn contains(s: Seq<char>, p: Seq<char>) -> bool {
    find_from(s, p, 0) is Some
}

pub proof fn lemma_find_from_found(s: Seq<char>, p: Seq<char>, i: int)
    requires
        find_from(s, p, i) is Some,
    ensures
        i <= find_from(s, p, i)->0,
        matches_at(s, p, find_from(s, p, i)->0),
        forall|k: int| i <= k < find_from(s, p, i)->0 ==> !matches_at(s, p, k),
    decreases s.len() - i,
{
    if !(i < 0 || i + p.len() > s.len()) && !matches_at(s, p, i) {
        lemma_find_from_found(s, p, i + 1);
    }
}

pub fn find_chars(s: &[char], p: &[char], start: usize) -> (r: Option<usize>)
    ensures
        match r {
            Some(k) => find_from(s@, p@, start as int) == Some(k as int),
            None => find_from(s@, p@, start as int) is None,
        },
{
    let mut i = start;
    while i <= s.len() && p.len() <= s.len() - i
        invariant
            start <= i,
            find_from(s@, p@, start as int) == find_from(s@, p@, i as int),
        decreases s.len() + 1 - i,
    {
        if match_at(s, p, i) {
            return Some(i);
        }
        i = i + 1;
    }
    None
}

/// First index at or after `i` that holds `c`.
pub open spec fn find_char_from(s: Seq<char>, c: char, i: int) -> Option<int>
    decreases s.len() - i,
{
    if i < 0 || i >= s.len() {
        None
    } else if s[i] == c {
        Some(i)
    } else {
        find_char_from(s, c, i + 1)
    }
}

pub proof fn lemma_find_char_from(s: Seq<char>, c: char, i: int)
    requires
        0 <= i,
    ensures
        match find_char_from(s, c, i) {
            Some(j) => i <= j < s.len() && s[j] == c && forall|k: int| i <= k < j ==> s[k] != c,
            None => forall|k: int| i <= k < s.len() ==> s[k] != c,
        },
    decreases s.len() - i,
{
    if i < s.len() && s[i] != c {
        lemma_find_char_from(s, c, i + 1);
    }
}

pub fn find_char(s: &[char], c: char, start: usize) -> (r: Option<usize>)
    ensures
        match r {
            Some(k) => find_char_from(s@, c, start as int) == Some(k as int),
            None => find_char_from(s@, c, start as int) is None,
        },
{
    let mut i = start;
    while i < s.len()
        invariant
            start <= i,
            find_char_from(s@, c, start as int) == find_char_from(s@, c, i as int),
        decreases s.len() - i,
    {
        if s[i] == c {
            return Some(i);
        }
        i = i + 1;
    }
    None
}

/// `s` holds the character `c` somewhere.
pub open spec fn has_char(s: Seq<char>, c: char) -> bool {
    find_char_from(s, c, 0) is Some
}

// ── lines and splitting ─────────────────────────────────────────────────────

/// Drops one trailing `'\r'`.
pub open spec fn strip_cr(l: Seq<char>) -> Seq<char> {
    if l.len() > 0 && l.last() == '\r' {
        l.drop_last()
    } else {
        l
    }
}

/// `str::lines` on the text from index `i`: pieces ended by `'\n'` (with one
/// `'\r'` before it dropped) and a final unterminated piece if non-empty.
pub open spec fn lines_from(s: Seq<char>, i: int) -> Seq<Seq<char>>
    decreases s.len() - i,
{
    if i < 0 || i >= s.len() {
        Seq::empty()
    } else {
        match find_char_from(s, '\n', i) {
            Some(j) => if j < i || j >= s.len() {
                Seq::empty()
            } else {
                seq![strip_cr(s.subrange(i, j))] + lines_from(s, j + 1)
            },
            None => seq![s.subrange(i, s.len() as int)],
        }
    }
}

/// `str::lines`.
pub open spec fn lines(s: Seq<char>) -> Seq<Seq<char>> {
    lines_from(s, 0)
}

/// Views of a vector of character vectors.
pub open spec fn views(v: Seq<Vec<char>>) -> Seq<Seq<char>> {
    v.map_values(|x: Vec<char>| x@)
}

pub fn strip_cr_chars(l: Vec<char>) -> (r: Vec<char>)
    ensures
        r@ == strip_cr(l@),
{
    let mut l = l;
    if l.len() > 0 && l[l.len() - 1] == '\r' {
        l.pop();
    }
    l
}

pub fn lines_of(s: &[char]) -> (r: Vec<Vec<char>>)
    ensures
        views(r@) == lines(s@),
{
    let mut r: Vec<Vec<char>> = Vec::new();
    let mut i: usize = 0;
    while i < s.len()
        invariant
            i <= s@.len(),
            views(r@) + lines_from(s@, i as int) == lines(s@),
        decreases s.len() - i,
    {
        proof {
            lemma_find_char_from(s@, '\n', i as int);
        }
        match find_char(s, '\n', i) {
            Some(j) => {
                let piece = strip_cr_chars(copy_range(s, i, j));
                let ghost old_r = r@;
                r.push(piece);
                assert(views(r@) =~= views(old_r) + seq![piece@]);
                i = j + 1;
            },
            None => {
                let piece = copy_range(s, i, s.len());
                let ghost old_r = r@;
                r.push(piece);
                assert(views(r@) =~= views(old_r) + seq![piece@]);
                assert(lines_from(s@, s@.len() as int) =~= Seq::<Seq<char>>::empty());
                i = s.len();
            },
        }
    }
    assert(lines_from(s@, i as int) =~= Seq::<Seq<char>>::empty());
    assert(views(r@) + Seq::<Seq<char>>::empty() =~= views(r@));
    r
}

/// `str::splitn(n, c)` on the text from index `i`.
pub open spec fn splitn_from(s: Seq<char>, n: nat, c: char, i: int) -> Seq<Seq<char>>
    decreases s.len() - i,
{
    if n == 0 || i < 0 || i > s.len() {
        Seq::empty()
    } else if n == 1 {
        seq![s.subrange(i, s.len() as int)]
    } else {
        match find_char_from(s, c, i) {
            Some(j) => if j < i || j >= s.len() {
                Seq::empty()
            } else {
                seq![s.subrange(i, j)] + splitn_from(s, (n - 1) as nat, c, j + 1)
            },
            None => seq![s.subrange(i, s.len() as int)],
        }
    }
}

pub fn splitn_chars(s: &[char], n: usize, c: char) -> (r: Vec<Vec<char>>)
    ensures
        views(r@) == splitn_from(s@, n as nat, c, 0),
{
    let mut r: Vec<Vec<char>> = Vec::new();
    if n == 0 {
        return r;
    }
    let mut i: usize = 0;
    let mut left: usize = n;
    let total: usize = s.len();
    loop
        invariant
            total == s@.len(),
            i <= s@.len(),
            1 <= left <= n,
            views(r@) + splitn_from(s@, left as nat, c, i as int) == splitn_from(s@, n as nat, c, 0),
        decreases left,
    {
        let ghost before = r@;
        if left == 1 {
            let piece = copy_range(s, i, s.len());
            r.push(piece);
            assert(views(r@) =~= views(before) + seq![piece@]);
            return r;
        }
        proof {
            lemma_find_char_from(s@, c, i as int);
        }
        match find_char(s, c, i) {
            Some(j) => {
                let piece = copy_range(s, i, j);
                r.push(piece);
                assert(views(r@) =~= views(before) + seq![piece@]);
                i = j + 1;
                left = left - 1;
            },
            None => {
                let piece = copy_range(s, i, s.len());
                r.push(piece);
                assert(views(r@) =~= views(before) + seq![piece@]);
                return r;
            },
        }
    }
}

/// `str::split(c)` on the text from index `i`.
pub open spec fn split_from(s: Seq<char>, c: char, i: int) -> Seq<Seq<char>>
    decreases s.len() - i,
{
    if i < 0 || i > s.len() {
        Seq::empty()
    } else {
        match find_char_from(s, c, i) {
            Some(j) => if j < i || j >= s.len() {
                Seq::empty()
            } else {
                seq![s.subrange(i, j)] + split_from(s, c, j + 1)
            },
            None => seq![s.subrange(i, s.len() as int)],
        }
    }
}

pub fn split_chars(s: &[char], c: char) -> (r: Vec<Vec<char>>)
    ensures
        views(r@) == split_from(s@, c, 0),
{
    let mut r: Vec<Vec<char>> = Vec::new();
    let mut i: usize = 0;
    loop
        invariant
            i <= s@.len(),
            views(r@) + split_from(s@, c, i as int) == split_from(s@, c, 0),
        decreases s.len() - i,
    {
        proof {
            lemma_find_char_from(s@, c, i as int);
        }
        match find_char(s, c, i) {
            Some(j) => {
                let piece = copy_range(s, i, j);
                let ghost old_r = r@;
                r.push(piece);
                assert(views(r@) =~= views(old_r) + seq![piece@]);
                i = j + 1;
            },
            None => {
                let piece = copy_range(s, i, s.len());
                let ghost old_r = r@;
                r.push(piece);
                assert(views(r@) =~= views(old_r) + seq![piece@]);
                return r;
            },
        }
    }
}

/// The text after the first `c`, if any (`splitn(2, c).nth(1)`).
pub open spec fn after_char(s: Seq<char>, c: char) -> Option<Seq<char>> {
    match find_char_from(s, c, 0) {
        Some(j) => Some(s.subrange(j + 1, s.len() as int)),
        None => None,
    }
}

pub fn after_char_chars(s: &[char], c: char) -> (r: Option<Vec<char>>)
    ensures
        match r {
            Some(v) => after_char(s@, c) == Some(v@),
            None => after_char(s@, c) is None,
        },
{
    proof {
        lemma_find_char_from(s@, c, 0);
    }
    let n = s.len();
    match find_char(s, c, 0) {
        Some(j) => Some(copy_range(s, j + 1, n)),
        None => None,
    }
}

// ── replacement ─────────────────────────────────────────────────────────────

/// `str::replace(from, to)` on the text from index `i`: leftmost,
/// non-overlapping occurrences of a non-empty `from` are replaced.
pub open spec fn replace_from(s: Seq<char>, from: Seq<char>, to: Seq<char>, i: int) -> Seq<char>
    decreases s.len() - i,
{
    if i < 0 || i > s.len() || from.len() == 0 {
        s.subrange(if 0 <= i <= s.len() { i } else { s.len() as int }, s.len() as int)
    } else {
        match find_from(s, from, i) {
            Some(j) => if j < i || j + from.len() > s.len() {
                s.subrange(i, s.len() as int)
            } else {
                s.subrange(i, j) + to + replace_from(s, from, to, j + from.len())
            },
            None => s.subrange(i, s.len() as int),
        }
    }
}

/// `str::replace(from, to)` for a non-empty `from`.
pub open spec fn replace(s: Seq<char>, from: Seq<char>, to: Seq<char>) -> Seq<char> {
    replace_from(s, from, to, 0)
}

pub fn replace_chars(s: &[char], from: &[char], to: &[char]) -> (r: Vec<char>)
    requires
        from@.len() > 0,
    ensures
        r@ == replace(s@, from@, to@),
{
    let mut r: Vec<char> = Vec::new();
    let mut i: usize = 0;
    loop
        invariant
            i <= s@.len(),
            from@.len() > 0,
            r@ + replace_from(s@, from@, to@, i as int) == replace(s@, from@, to@),
        decreases s.len() - i,
    {
        match find_chars(s, from, i) {
            Some(j) => {
                proof {
                    lemma_find_from_found(s@, from@, i as int);
                }
                let ghost old_r = r@;
                let piece = copy_range(s, i, j);
                push_all(&mut r, piece.as_slice());
                push_all(&mut r, to);
                assert(r@ =~= old_r + (s@.subrange(i as int, j as int) + to@));
                i = j + from.len();
            },
            None => {
                let ghost old_r = r@;
                let piece = copy_range(s, i, s.len());
                push_all(&mut r, piece.as_slice());
                return r;
            },
        }
    }
}

// ── case-insensitive comparison, pattern trimming ───────────────────────────

/// `char::to_ascii_lowercase`.
pub open spec fn ascii_lower(c: char) -> char {
    if 'A' <= c && c <= 'Z' {
        ((c as u32) + 32) as char
    } else {
        c
    }
}

pub fn to_ascii_lower(c: char) -> (r: char)
    ensures
        r == ascii_lower(c),
{
    if 'A' <= c && c <= 'Z' {
        let u: u32 = (c as u32) + 32;
        assert(0x61 <= u <= 0x7a);
        // a value in 'a'..='z' is a char
        char_from_ascii(u)
    } else {
        c
    }
}

/// The char of an ASCII lowercase letter code.
fn char_from_ascii(u: u32) -> (r: char)
    requires
        0x61 <= u <= 0x7a,
    ensures
        r == u as char,
{
    let b: u8 = u as u8;
    b as char
}

/// `str::eq_ignore_ascii_case`.
pub open spec fn eq_ignore_ascii_case(a: Seq<char>, b: Seq<char>) -> bool {
    &&& a.len() == b.len()
    &&& forall|k: int| 0 <= k < a.len() ==> #[trigger] ascii_lower(a[k]) == ascii_lower(b[k])
}

pub fn eq_ignore_ascii_case_chars(a: &[char], b: &[char]) -> (r: bool)
    ensures
        r == eq_ignore_ascii_case(a@, b@),
{
    if a.len() != b.len() {
        return false;
    }
    let mut i: usize = 0;
    while i < a.len()
        invariant
            a@.len() == b@.len(),
            i <= a@.len(),
            forall|k: int| 0 <= k < i ==> #[trigger] ascii_lower(a@[k]) == ascii_lower(b@[k]),
        decreases a.len() - i,
    {
        if to_ascii_lower(a[i]) != to_ascii_lower(b[i]) {
            assert(ascii_lower(a@[i as int]) != ascii_lower(b@[i as int]));
            return false;
        }
        i = i + 1;
    }
    true
}

/// Index after all leading copies of `c` from `i` on.
pub open spec fn skip_char(s: Seq<char>, c: char, i: int) -> int
    decreases s.len() - i,
{
    if 0 <= i < s.len() && s[i] == c {
        skip_char(s, c, i + 1)
    } else {
        i
    }
}

/// End after dropping trailing copies of `c`, not going below `lo`.
pub open spec fn back_char(s: Seq<char>, c: char, lo: int, j: int) -> int
    decreases j - lo,
{
    if lo < j <= s.len() && s[j - 1] == c {
        back_char(s, c, lo, j - 1)
    } else {
        j
    }
}

/// `str::trim_start_matches(c)`.
pub open spec fn trim_start_char(s: Seq<char>, c: char) -> Seq<char> {
    s.subrange(skip_char(s, c, 0), s.len() as int)
}

/// `str::trim_end_matches(c)`.
pub open spec fn trim_end_char(s: Seq<char>, c: char) -> Seq<char> {
    s.subrange(0, back_char(s, c, 0, s.len() as int))
}

/// `str::trim_matches(c)`.
pub open spec fn trim_char(s: Seq<char>, c: char) -> Seq<char> {
    let a = skip_char(s, c, 0);
    s.subrange(a, back_char(s, c, a, s.len() as int))
}

pub proof fn lemma_skip_char_bounds(s: Seq<char>, c: char, i: int)
    requires
        0 <= i <= s.len(),
    ensures
        i <= skip_char(s, c, i) <= s.len(),
    decreases s.len() - i,
{
    if i < s.len() && s[i] == c {
        lemma_skip_char_bounds(s, c, i + 1);
    }
}

pub proof fn lemma_back_char_bounds(s: Seq<char>, c: char, lo: int, j: int)
    requires
        0 <= lo <= j <= s.len(),
    ensures
        lo <= back_char(s, c, lo, j) <= j,
    decreases j - lo,
{
    if lo < j && s[j - 1] == c {
        lemma_back_char_bounds(s, c, lo, j - 1);
    }
}

fn skip_char_exec(s: &[char], c: char, start: usize) -> (r: usize)
    requires
        start <= s@.len(),
    ensures
        r == skip_char(s@, c, start as int),
        start <= r <= s@.len(),
{
    let mut a = start;
    while a < s.len() && s[a] == c
        invariant
            start <= a <= s@.len(),
            skip_char(s@, c, start as int) == skip_char(s@, c, a as int),
        decreases s.len() - a,
    {
        a = a + 1;
    }
    a
}

fn back_char_exec(s: &[char], c: char, lo: usize) -> (r: usize)
    requires
        lo <= s@.len(),
    ensures
        r == back_char(s@, c, lo as int, s@.len() as int),
        lo <= r <= s@.len(),
{
    let mut b = s.len();
    while b > lo && s[b - 1] == c
        invariant
            lo <= b <= s@.len(),
            back_char(s@, c, lo as int, s@.len() as int) == back_char(s@, c, lo as int, b as int),
        decreases b,
    {
        b = b - 1;
    }
    b
}

pub fn trim_start_char_chars(s: &[char], c: char) -> (r: Vec<char>)
    ensures
        r@ == trim_start_char(s@, c),
{
    let a = skip_char_exec(s, c, 0);
    copy_range(s, a, s.len())
}

pub fn trim_end_char_chars(s: &[char], c: char) -> (r: Vec<char>)
    ensures
        r@ == trim_end_char(s@, c),
{
    let b = back_char_exec(s, c, 0);
    copy_range(s, 0, b)
}

pub fn trim_char_chars(s: &[char], c: char) -> (r: Vec<char>)
    ensures
        r@ == trim_char(s@, c),
{
    let a = skip_char_exec(s, c, 0);
    let b = back_char_exec(s, c, a);
    copy_range(s, a, b)
}

/// `str::trim_start_matches(p)` for a non-empty string pattern, from index `i`.
pub open spec fn skip_prefixes(s: Seq<char>, p: Seq<char>, i: int) -> int
    decreases s.len() - i,
{
    if p.len() > 0 && matches_at(s, p, i) {
        skip_prefixes(s, p, i + p.len())
    } else {
        i
    }
}

/// `str::trim_end_matches(p)` for a non-empty string pattern, ending at `j`.
pub open spec fn back_suffixes(s: Seq<char>, p: Seq<char>, j: int) -> int
    decreases j,
{
    if p.len() > 0 && j <= s.len() && matches_at(s, p, j - p.len()) {
        back_suffixes(s, p, j - p.len())
    } else {
        j
    }
}

/// `str::trim_start_matches(p)`.
pub open spec fn trim_start_str(s: Seq<char>, p: Seq<char>) -> Seq<char> {
    s.subrange(skip_prefixes(s, p, 0), s.len() as int)
}

/// `str::trim_end_matches(p)`.
pub open spec fn trim_end_str(s: Seq<char>, p: Seq<char>) -> Seq<char> {
    s.subrange(0, back_suffixes(s, p, s.len() as int))
}

pub fn trim_start_str_chars(s: &[char], p: &[char]) -> (r: Vec<char>)
    requires
        p@.len() > 0,
    ensures
        r@ == trim_start_str(s@, p@),
{
    let mut a: usize = 0;
    while match_at(s, p, a)
        invariant
            a <= s@.len(),
            p@.len() > 0,
            skip_prefixes(s@, p@, 0) == skip_prefixes(s@, p@, a as int),
        decreases s.len() - a,
    {
        a = a + p.len();
    }
    copy_range(s, a, s.len())
}

pub fn trim_end_str_chars(s: &[char], p: &[char]) -> (r: Vec<char>)
    requires
        p@.len() > 0,
    ensures
        r@ == trim_end_str(s@, p@),
{
    let mut b: usize = s.len();
    while b >= p.len() && match_at(s, p, b - p.len())
        invariant
            b <= s@.len(),
            p@.len() > 0,
            back_suffixes(s@, p@, s@.len() as int) == back_suffixes(s@, p@, b as int),
        decreases b,
    {
        b = b - p.len();
    }
    proof {
        if b < p@.len() {
            assert(!matches_at(s@, p@, b - p@.len()));
        }
    }
    copy_range(s, 0, b)
}

/// The first whitespace-separated word (`split_whitespace().next()`).
pub open spec fn first_word(s: Seq<char>) -> Option<Seq<char>> {
    let a = skip_ws(s, 0);
    if a >= s.len() {
        None
    } else {
        Some(s.subrange(a, word_end(s, a)))
    }
}

/// First whitespace index at or after `i` (or the end).
pub open spec fn word_end(s: Seq<char>, i: int) -> int
    decreases s.len() - i,
{
    if 0 <= i < s.len() && !is_ws(s[i]) {
        word_end(s, i + 1)
    } else {
        i
    }
}

pub proof fn lemma_word_end_bounds(s: Seq<char>, i: int)
    requires
        0 <= i <= s.len(),
    ensures
        i <= word_end(s, i) <= s.len(),
    decreases s.len() - i,
{
    if i < s.len() && !is_ws(s[i]) {
        lemma_word_end_bounds(s, i + 1);
    }
}

pub fn first_word_chars(s: &[char]) -> (r: Option<Vec<char>>)
    ensures
        match r {
            Some(v) => first_word(s@) == Some(v@),
            None => first_word(s@) is None,
        },
{
    let mut a: usize = 0;
    while a < s.len() && is_whitespace(s[a])
        invariant
            a <= s@.len(),
            skip_ws(s@, 0) == skip_ws(s@, a as int),
        decreases s.len() - a,
    {
        a = a + 1;
    }
    if a >= s.len() {
        return None;
    }
    let mut b: usize = a;
    while b < s.len() && !is_whitespace(s[b])
        invariant
            a <= b <= s@.len(),
            word_end(s@, a as int) == word_end(s@, b as int),
        decreases s.len() - b,
    {
        b = b + 1;
    }
    Some(copy_range(s, a, b))
}

// ── decimal numbers ─────────────────────────────────────────────────────────

pub open spec fn is_digit(c: char) -> bool {
    '0' <= c && c <= '9'
}

pub open spec fn digit_value(c: char) -> nat {
    (c as int - '0' as int) as nat
}

pub open spec fn all_digits(s: Seq<char>) -> bool {
    forall|k: int| 0 <= k < s.len() ==> #[trigger] is_digit(s[k])
}

/// The value of a sequence of decimal digits.
pub open spec fn dec_value(s: Seq<char>) -> nat
    decreases s.len(),
{
    if s.len() == 0 {
        0
    } else {
        dec_value(s.drop_last()) * 10 + digit_value(s.last())
    }
}

/// Digits of an unsigned number, after an optional `'+'`; `None` when there
/// are none (`""` and `"+"`).
pub open spec fn unsigned_digits(s: Seq<char>) -> Option<Seq<char>> {
    let d = if s.len() > 0 && s[0] == '+' { s.drop_first() } else { s };
    if d.len() == 0 { None } else { Some(d) }
}

/// `str::parse::<u64>`.
pub open spec fn parse_u64(s: Seq<char>) -> Option<u64> {
    match unsigned_digits(s) {
        Some(d) => if all_digits(d) && dec_value(d) <= u64::MAX {
            Some(dec_value(d) as u64)
        } else {
            None
        },
        None => None,
    }
}

/// `str::parse::<i32>`: an optional sign, then decimal digits, in range.
pub open spec fn parse_i32(s: Seq<char>) -> Option<i32> {
    if s.len() > 0 && s[0] == '-' {
        let d = s.drop_first();
        if d.len() > 0 && all_digits(d) && dec_value(d) <= 0x8000_0000 {
            Some((-(dec_value(d) as int)) as i32)
        } else {
            None
        }
    } else {
        match unsigned_digits(s) {
            Some(d) => if all_digits(d) && dec_value(d) <= i32::MAX {
                Some(dec_value(d) as i32)
            } else {
                None
            },
            None => None,
        }
    }
}

pub proof fn lemma_dec_value_prefix(s: Seq<char>, i: int)
    requires
        0 <= i <= s.len(),
        all_digits(s),
    ensures
        dec_value(s.take(i)) <= dec_value(s),
    decreases s.len() - i,
{
    if i < s.len() {
        lemma_dec_value_prefix(s, i + 1);
        assert(s.take(i + 1).drop_last() =~= s.take(i));
    } else {
        assert(s.take(i) =~= s);
    }
}

/// Value of the digits in `d`, or `None` when a non-digit occurs or the
/// value exceeds `limit`.
fn digits_value_upto(d: &[char], limit: u64) -> (r: Option<u64>)
    requires
        limit >= 9,
    ensures
        match r {
            Some(v) => all_digits(d@) && dec_value(d@) <= limit && v == dec_value(d@),
            None => !(all_digits(d@) && dec_value(d@) <= limit),
        },
{
    let mut v: u64 = 0;
    let mut i: usize = 0;
    while i < d.len()
        invariant
            i <= d@.len(),
            all_digits(d@.take(i as int)),
            v == dec_value(d@.take(i as int)),
            v <= limit,
            limit >= 9,
        decreases d.len() - i,
    {
        let c = d[i];
        assert(d@.take(i + 1).drop_last() =~= d@.take(i as int));
        if !('0' <= c && c <= '9') {
            assert(!is_digit(d@[i as int]));
            return None;
        }
        let dv: u64 = (c as u64) - ('0' as u64);
        if v > (limit - dv) / 10 {
            proof {
                assert(all_digits(d@.take(i + 1)));
                assert(dec_value(d@.take(i + 1)) > limit);
                if all_digits(d@) {
                    lemma_dec_value_prefix(d@, i + 1);
                }
            }
            return None;
        }
        v = v * 10 + dv;
        i = i + 1;
    }
    assert(d@.take(i as int) =~= d@);
    Some(v)
}

pub fn parse_u64_chars(s: &[char]) -> (r: Option<u64>)
    ensures
        r == parse_u64(s@),
{
    let start: usize = if s.len() > 0 && s[0] == '+' { 1 } else { 0 };
    if start >= s.len() {
        return None;
    }
    let d = &s[start..s.len()];
    assert(d@ =~= if s@.len() > 0 && s@[0] == '+' { s@.drop_first() } else { s@ });
    digits_value_upto(d, u64::MAX)
}

pub fn parse_i32_chars(s: &[char]) -> (r: Option<i32>)
    ensures
        r == parse_i32(s@),
{
    if s.len() > 0 && s[0] == '-' {
        if s.len() == 1 {
            return None;
        }
        let d = &s[1..s.len()];
        assert(d@ =~= s@.drop_first());
        match digits_value_upto(d, 0x8000_0000) {
            Some(v) => {
                let w: i64 = 0 - (v as i64);
                Some(w as i32)
            },
            None => None,
        }
    } else {
        let start: usize = if s.len() > 0 && s[0] == '+' { 1 } else { 0 };
        if start >= s.len() {
            return None;
        }
        let d = &s[start..s.len()];
        assert(d@ =~= if s@.len() > 0 && s@[0] == '+' { s@.drop_first() } else { s@ });
        match digits_value_upto(d, 0x7fff_ffff) {
            Some(v) => Some(v as i32),
            None => None,
        }
    }
}

pub open spec fn digit_char(n: nat) -> char {
    (('0' as int) + (n % 10)) as char
}

/// Decimal representation of `n`, without leading zeros.
pub open spec fn decimal(n: nat) -> Seq<char>
    decreases n,
{
    if n < 10 {
        seq![digit_char(n)]
    } else {
        decimal(n / 10) + seq![digit_char(n % 10)]
    }
}

fn digit_char_exec(d: u64) -> (r: char)
    requires
        d < 10,
    ensures
        r == digit_char(d as nat),
{
    let b: u8 = 48u8 + (d as u8);
    b as char
}

/// Decimal representation of `n` (`u64::to_string`).
pub fn decimal_chars(n: u64) -> (r: Vec<char>)
    ensures
        r@ == decimal(n as nat),
    decreases n,
{
    if n < 10 {
        let mut r: Vec<char> = Vec::new();
        r.push(digit_char_exec(n));
        assert(r@ =~= seq![digit_char(n as nat)]);
        r
    } else {
        let mut r = decimal_chars(n / 10);
        r.push(digit_char_exec(n % 10));
        r
    }
}


// ── facts about particular texts ────────────────────────────────────────────

/// `s` is not empty and neither starts nor ends with whitespace.
pub open spec fn clean(s: Seq<char>) -> bool {
    &&& s.len() > 0
    &&& !is_ws(s[0])
    &&& !is_ws(s[s.len() - 1])
}

/// `s` does not hold the character `c`.
pub open spec fn lacks(s: Seq<char>, c: char) -> bool {
    forall|k: int| 0 <= k < s.len() ==> #[trigger] s[k] != c
}

/// Trimming a clean text gives it back.
pub proof fn lemma_trim_clean(s: Seq<char>)
    requires
        clean(s),
    ensures
        trim(s) == s,
{
    assert(skip_ws(s, 0) == 0);
    assert(back_ws(s, 0, s.len() as int) == s.len());
    assert(s.subrange(0, s.len() as int) =~= s);
}

/// Trimming a space and a clean text gives the text.
pub proof fn lemma_trim_after_space(s: Seq<char>)
    requires
        clean(s),
    ensures
        trim(seq![' '] + s) == s,
{
    let t = seq![' '] + s;
    assert(t[1] == s[0]);
    assert(skip_ws(t, 1) == 1);
    assert(is_ws(t[0]));
    assert(skip_ws(t, 0) == 1);
    assert(t[t.len() - 1] == s[s.len() - 1]);
    assert(back_ws(t, 1, t.len() as int) == t.len());
    assert(t.subrange(1, t.len() as int) =~= s);
}

/// The first `c` at or after `i` is at `j`.
pub proof fn lemma_find_char_first(s: Seq<char>, c: char, i: int, j: int)
    requires
        0 <= i <= j < s.len(),
        s[j] == c,
        forall|k: int| i <= k < j ==> s[k] != c,
    ensures
        find_char_from(s, c, i) == Some(j),
    decreases j - i,
{
    if i < j {
        lemma_find_char_first(s, c, i + 1, j);
    }
}

/// A pattern whose first character does not occur is not found.
pub proof fn lemma_find_from_absent(s: Seq<char>, p: Seq<char>, i: int)
    requires
        p.len() > 0,
        lacks(s, p[0]),
    ensures
        find_from(s, p, i) is None,
    decreases s.len() - i,
{
    if !(i < 0 || i + p.len() > s.len()) {
        if matches_at(s, p, i) {
            assert(s[i + 0] == p[0]);
        }
        lemma_find_from_absent(s, p, i + 1);
    }
}

/// Replacing a pattern whose first character does not occur changes
/// nothing.
pub proof fn lemma_replace_absent(s: Seq<char>, from: Seq<char>, to: Seq<char>)
    requires
        from.len() > 0,
        lacks(s, from[0]),
    ensures
        replace(s, from, to) == s,
{
    lemma_find_from_absent(s, from, 0);
    assert(s.subrange(0, s.len() as int) =~= s);
}

/// Trimming keeps a missing character missing.
pub proof fn lemma_trim_lacks(s: Seq<char>, c: char)
    requires
        lacks(s, c),
    ensures
        lacks(trim(s), c),
{
    lemma_skip_ws_bounds(s, 0);
    let a = skip_ws(s, 0);
    lemma_back_ws_bounds(s, a, s.len() as int);
    let t = trim(s);
    assert forall|k: int| 0 <= k < t.len() implies #[trigger] t[k] != c by {
        assert(t[k] == s[a + k]);
    }
}

/// `w` is a word: not empty, with no whitespace.
pub open spec fn is_word(w: Seq<char>) -> bool {
    w.len() > 0 && forall|k: int| 0 <= k < w.len() ==> !is_ws(#[trigger] w[k])
}

proof fn lemma_word_end_of_word(w: Seq<char>, sep: Seq<char>, i: int)
    requires
        is_word(w),
        sep.len() == 0 || is_ws(sep[0]),
        0 <= i <= w.len(),
    ensures
        word_end(w + sep, i) == w.len(),
    decreases w.len() - i,
{
    let s = w + sep;
    if i < w.len() {
        assert(s[i] == w[i]);
        lemma_word_end_of_word(w, sep, i + 1);
    } else if sep.len() > 0 {
        assert(s[i] == sep[0]);
    }
}

/// The first word of a word followed by nothing or by whitespace is that
/// word.
pub proof fn lemma_first_word_of_word(w: Seq<char>, sep: Seq<char>)
    requires
        is_word(w),
        sep.len() == 0 || is_ws(sep[0]),
    ensures
        first_word(w + sep) == Some(w),
{
    let s = w + sep;
    assert(s[0] == w[0]);
    assert(skip_ws(s, 0) == 0);
    lemma_word_end_of_word(w, sep, 0);
    assert(s.subrange(0, w.len() as int) =~= w);
}

} // verus!
