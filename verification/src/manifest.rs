//! The `sunburn.json` manifest: its schema, semantic validation, and the
//! `{{field_id}}` template substitution used by write rules.
use std::collections::HashMap;
use vstd::prelude::*;

use crate::text::{
    chars_eq, chars_of, copy_range, find_chars, find_from, lemma_find_from_found, match_at,
    matches_at, push_all, string_from_chars,
};

verus! {

// ── Error ───────────────────────────────────────────────────────────────────

/// Why a manifest was refused.
#[derive(Debug)]
pub enum ManifestError {
    /// The text is not a manifest document; the message says why.
    Parse(String),
    /// The document is well formed but breaks a rule of the schema.
    Validation(String),
}

impl ManifestError {
    /// The message shown to the user.
    pub open spec fn spec_message(&self) -> Seq<char> {
        match self {
            ManifestError::Parse(m) => "JSON parse error: "@ + m@,
            ManifestError::Validation(m) => "validation error: "@ + m@,
        }
    }

    /// The message shown to the user.
    pub fn to_string(&self) -> (r: String)
        ensures
            r@ == self.spec_message(),
    {
        match self {
            ManifestError::Parse(m) => {
                let mut r = "JSON parse error: ".to_owned();
                r.append(m.as_str());
                r
            },
            ManifestError::Validation(m) => {
                let mut r = "validation error: ".to_owned();
                r.append(m.as_str());
                r
            },
        }
    }
}

// ── Schema types ────────────────────────────────────────────────────────────

/// The input widget of a field.
#[derive(Debug, Clone, Copy, PartialEq, Eq, Structural)]
pub enum FieldType {
    Text,
    Password,
    WifiPicker,
    SshKeyPicker,
    CountryPicker,
    TimezonePicker,
    Toggle,
    Select,
}

/// One entry of a `select` field.
#[derive(Debug, Clone)]
pub struct SelectOption {
    pub value: String,
    pub label: String,
}

/// Shows a field only while another field holds a given value.
#[derive(Debug, Clone)]
pub struct ShowWhen {
    pub field: String,
    pub value: String,
}

/// An input collected by a wizard step.
#[derive(Debug, Clone)]
pub struct Field {
    pub id: String,
    pub label: String,
    pub field_type: FieldType,
    pub required: bool,
    pub default: Option<String>,
    pub show_when: Option<ShowWhen>,
    pub options: Option<Vec<SelectOption>>,
}

/// A file written to the boot partition after a step.
#[derive(Debug, Clone)]
pub struct WriteRule {
    /// Path relative to the boot partition root.
    pub path: String,
    /// Template string with `{{field_id}}` placeholders.
    pub template: String,
}

/// One page of the setup wizard.
#[derive(Debug, Clone)]
pub struct Step {
    pub id: String,
    pub title: String,
    pub fields: Vec<Field>,
    pub writes: Vec<WriteRule>,
}

/// A parsed `sunburn.json`.
#[derive(Debug, Clone)]
pub struct Manifest {
    pub version: String,
    pub name: String,
    pub description: Option<String>,
    pub steps: Vec<Step>,
}

// ── Validation rules ────────────────────────────────────────────────────────

/// The ids of all fields of all steps, in order.
pub open spec fn field_ids(steps: Seq<Step>) -> Seq<Seq<char>>
    decreases steps.len(),
{
    if steps.len() == 0 {
        Seq::empty()
    } else {
        field_ids(steps.drop_last()) + steps.last().fields@.map_values(|f: Field| f.id@)
    }
}

/// The ids of the steps `ss`, in order.
pub open spec fn step_ids(ss: Seq<Step>) -> Seq<Seq<char>> {
    ss.map_values(|s: Step| s.id@)
}

/// The ids of the fields `fs`, in order.
pub open spec fn ids_of(fs: Seq<Field>) -> Seq<Seq<char>> {
    fs.map_values(|f: Field| f.id@)
}

/// The first rule that the field `f` of step `step_id` breaks, as a message.
/// `ids` are the ids of all fields of the manifest, `seen` those of the
/// fields before `f`.
pub open spec fn field_error(step_id: Seq<char>, f: Field, ids: Seq<Seq<char>>, seen: Seq<Seq<char>>) -> Option<
    Seq<char>,
> {
    if f.id@.len() == 0 {
        Some("field in step '"@ + step_id + "' has an empty id"@)
    } else if seen.contains(f.id@) {
        Some("duplicate field id '"@ + f.id@ + "'"@)
    } else if f.field_type == FieldType::Select && f.options is None {
        Some("field '"@ + f.id@ + "' has type 'select' but no options"@)
    } else {
        match f.show_when {
            Some(sw) => if !ids.contains(sw.field@) {
                Some(
                    "field '"@ + f.id@ + "' show_when references unknown field '"@ + sw.field@
                        + "'"@,
                )
            } else {
                None
            },
            None => None,
        }
    }
}

/// The first broken rule among the fields `fs[i..]`; `seen` are the ids of
/// the fields of the earlier steps.
pub open spec fn fields_error(
    step_id: Seq<char>,
    fs: Seq<Field>,
    ids: Seq<Seq<char>>,
    seen: Seq<Seq<char>>,
    i: int,
) -> Option<Seq<char>>
    decreases fs.len() - i,
{
    if i < 0 || i >= fs.len() {
        None
    } else {
        match field_error(step_id, fs[i], ids, seen + ids_of(fs.take(i))) {
            Some(m) => Some(m),
            None => fields_error(step_id, fs, ids, seen, i + 1),
        }
    }
}

/// The first write rule among `ws[i..]` with an empty path, as a message.
pub open spec fn writes_error(step_id: Seq<char>, ws: Seq<WriteRule>, i: int) -> Option<Seq<char>>
    decreases ws.len() - i,
{
    if i < 0 || i >= ws.len() {
        None
    } else if ws[i].path@.len() == 0 {
        Some("write rule in step '"@ + step_id + "' has an empty path"@)
    } else {
        writes_error(step_id, ws, i + 1)
    }
}

/// The first rule that step `s` breaks; `earlier_steps` and
/// `earlier_fields` are the ids of the steps before it and of their fields.
pub open spec fn step_error(
    s: Step,
    ids: Seq<Seq<char>>,
    earlier_steps: Seq<Seq<char>>,
    earlier_fields: Seq<Seq<char>>,
) -> Option<Seq<char>> {
    if s.id@.len() == 0 {
        Some("step id must not be empty"@)
    } else if earlier_steps.contains(s.id@) {
        Some("duplicate step id '"@ + s.id@ + "'"@)
    } else {
        match fields_error(s.id@, s.fields@, ids, earlier_fields, 0) {
            Some(m) => Some(m),
            None => writes_error(s.id@, s.writes@, 0),
        }
    }
}

/// The first broken rule among the steps `ss[i..]`.
pub open spec fn steps_error(ss: Seq<Step>, ids: Seq<Seq<char>>, i: int) -> Option<Seq<char>>
    decreases ss.len() - i,
{
    if i < 0 || i >= ss.len() {
        None
    } else {
        match step_error(ss[i], ids, step_ids(ss.take(i)), field_ids(ss.take(i))) {
            Some(m) => Some(m),
            None => steps_error(ss, ids, i + 1),
        }
    }
}

/// The first rule that manifest `m` breaks, in the order in which they are
/// checked; `None` when it is valid.
pub open spec fn manifest_error(m: Manifest) -> Option<Seq<char>> {
    if m.version@ != "1"@ {
        Some("unsupported manifest version: "@ + m.version@)
    } else if m.name@.len() == 0 {
        Some("manifest name must not be empty"@)
    } else {
        steps_error(m.steps@, field_ids(m.steps@), 0)
    }
}

/// The ids of all fields of all steps.
fn collect_field_ids(steps: &Vec<Step>) -> (r: Vec<String>)
    ensures
        r@.map_values(|s: String| s@) == field_ids(steps@),
{
    let mut r: Vec<String> = Vec::new();
    let mut i: usize = 0;
    while i < steps.len()
        invariant
            i <= steps@.len(),
            r@.map_values(|s: String| s@) == field_ids(steps@.take(i as int)),
        decreases steps.len() - i,
    {
        let fields = &steps[i].fields;
        let mut j: usize = 0;
        while j < fields.len()
            invariant
                i < steps@.len(),
                fields == steps@[i as int].fields,
                j <= fields@.len(),
                r@.map_values(|s: String| s@) == field_ids(steps@.take(i as int))
                    + fields@.take(j as int).map_values(|f: Field| f.id@),
            decreases fields.len() - j,
        {
            let ghost before = r@;
            r.push(fields[j].id.clone());
            assert(fields@.take(j + 1).map_values(|f: Field| f.id@) =~= fields@.take(
                j as int,
            ).map_values(|f: Field| f.id@).push(fields@[j as int].id@));
            assert(r@.map_values(|s: String| s@) =~= before.map_values(|s: String| s@).push(
                fields@[j as int].id@,
            ));
            j = j + 1;
        }
        assert(steps@.take(i + 1).drop_last() =~= steps@.take(i as int));
        assert(fields@.take(j as int) =~= fields@);
        i = i + 1;
    }
    assert(steps@.take(i as int) =~= steps@);
    r
}

/// Whether `ids` holds `x`.
fn contains_string(ids: &Vec<String>, x: &String) -> (r: bool)
    ensures
        r == ids@.map_values(|s: String| s@).contains(x@),
{
    let ghost v = ids@.map_values(|s: String| s@);
    let mut i: usize = 0;
    while i < ids.len()
        invariant
            i <= ids@.len(),
            v == ids@.map_values(|s: String| s@),
            forall|k: int| 0 <= k < i ==> v[k] != x@,
        decreases ids.len() - i,
    {
        if ids[i] == *x {
            assert(v[i as int] == x@);
            return true;
        }
        i = i + 1;
    }
    false
}

/// `a + b + c` as a `String`.
fn join3(a: &str, b: &str, c: &str) -> (r: String)
    ensures
        r@ == a@ + b@ + c@,
{
    let mut r = a.to_owned();
    r.append(b);
    r.append(c);
    r
}

fn check_field(step_id: &String, f: &Field, ids: &Vec<String>, seen: &Vec<String>) -> (r: Option<
    String,
>)
    ensures
        match r {
            Some(m) => field_error(
                step_id@,
                *f,
                ids@.map_values(|s: String| s@),
                seen@.map_values(|s: String| s@),
            ) == Some(m@),
            None => field_error(
                step_id@,
                *f,
                ids@.map_values(|s: String| s@),
                seen@.map_values(|s: String| s@),
            ) is None,
        },
{
    if f.id.as_str().is_empty() {
        return Some(join3("field in step '", step_id.as_str(), "' has an empty id"));
    }
    if contains_string(seen, &f.id) {
        return Some(join3("duplicate field id '", f.id.as_str(), "'"));
    }
    if f.field_type == FieldType::Select && f.options.is_none() {
        return Some(join3("field '", f.id.as_str(), "' has type 'select' but no options"));
    }
    match &f.show_when {
        Some(sw) => {
            if !contains_string(ids, &sw.field) {
                let mut m = join3("field '", f.id.as_str(), "' show_when references unknown field '");
                m.append(sw.field.as_str());
                m.append("'");
                Some(m)
            } else {
                None
            }
        },
        None => None,
    }
}

/// Checks step `s`; `steps_seen` are the ids of the earlier steps and
/// `fields_seen` those of their fields, to which the ids of the fields of
/// `s` are added when it passes.
fn check_step(s: &Step, ids: &Vec<String>, steps_seen: &Vec<String>, fields_seen: &mut Vec<String>) -> (r:
    Option<String>)
    ensures
        match r {
            Some(m) => step_error(
                *s,
                ids@.map_values(|x: String| x@),
                steps_seen@.map_values(|x: String| x@),
                old(fields_seen)@.map_values(|x: String| x@),
            ) == Some(m@),
            None => step_error(
                *s,
                ids@.map_values(|x: String| x@),
                steps_seen@.map_values(|x: String| x@),
                old(fields_seen)@.map_values(|x: String| x@),
            ) is None && final(fields_seen)@.map_values(|x: String| x@) == old(fields_seen)@.map_values(
                |x: String| x@,
            ) + ids_of(s.fields@),
        },
{
    let ghost idv = ids@.map_values(|x: String| x@);
    let ghost seen0 = fields_seen@.map_values(|x: String| x@);
    if s.id.as_str().is_empty() {
        return Some("step id must not be empty".to_owned());
    }
    if contains_string(steps_seen, &s.id) {
        return Some(join3("duplicate step id '", s.id.as_str(), "'"));
    }
    let mut j: usize = 0;
    while j < s.fields.len()
        invariant
            j <= s.fields@.len(),
            s.id@.len() > 0,
            !steps_seen@.map_values(|x: String| x@).contains(s.id@),
            seen0 == old(fields_seen)@.map_values(|x: String| x@),
            idv == ids@.map_values(|x: String| x@),
            fields_seen@.map_values(|x: String| x@) == seen0 + ids_of(s.fields@.take(j as int)),
            fields_error(s.id@, s.fields@, idv, seen0, 0) == fields_error(
                s.id@,
                s.fields@,
                idv,
                seen0,
                j as int,
            ),
        decreases s.fields.len() - j,
    {
        let f = &s.fields[j];
        assert(seen0 + ids_of(s.fields@.take(j as int)) =~= fields_seen@.map_values(|x: String| x@));
        match check_field(&s.id, f, ids, fields_seen) {
            Some(m) => {
                assert(fields_error(s.id@, s.fields@, idv, seen0, j as int) == Some(m@));
                assert(fields_error(s.id@, s.fields@, idv, seen0, 0) == Some(m@));
                return Some(m);
            },
            None => {},
        }
        let ghost before = fields_seen@;
        fields_seen.push(f.id.clone());
        assert(fields_seen@.map_values(|x: String| x@) =~= before.map_values(|x: String| x@).push(
            f.id@,
        ));
        assert(ids_of(s.fields@.take(j + 1)) =~= ids_of(s.fields@.take(j as int)).push(f.id@));
        j = j + 1;
    }
    assert(s.fields@.take(j as int) =~= s.fields@);
    let mut k: usize = 0;
    while k < s.writes.len()
        invariant
            k <= s.writes@.len(),
            s.id@.len() > 0,
            !steps_seen@.map_values(|x: String| x@).contains(s.id@),
            seen0 == old(fields_seen)@.map_values(|x: String| x@),
            fields_error(s.id@, s.fields@, idv, seen0, 0) is None,
            idv == ids@.map_values(|x: String| x@),
            writes_error(s.id@, s.writes@, 0) == writes_error(s.id@, s.writes@, k as int),
        decreases s.writes.len() - k,
    {
        if s.writes[k].path.as_str().is_empty() {
            let m = join3("write rule in step '", s.id.as_str(), "' has an empty path");
            assert(writes_error(s.id@, s.writes@, k as int) == Some(m@));
            return Some(m);
        }
        k = k + 1;
    }
    None
}

/// Validate a parsed [`Manifest`] for semantic correctness.
///
/// Checks, in this order: the version is `"1"`; the name is not empty; then
/// for each step in turn: its id is not empty and is not the id of an
/// earlier step; each of its fields has a non-empty id that no earlier field
/// of any step has, a `select` field has options, and a `show_when` names the
/// id of some field of any step; each write rule has a non-empty path. The
/// first broken rule is reported.
pub fn validate(manifest: &Manifest) -> (r: Result<(), ManifestError>)
    ensures
        match r {
            Ok(()) => manifest_error(*manifest) is None,
            Err(ManifestError::Validation(m)) => manifest_error(*manifest) == Some(m@),
            Err(ManifestError::Parse(_)) => false,
        },
{
    let one = chars_of("1");
    if !chars_eq(chars_of(manifest.version.as_str()).as_slice(), one.as_slice()) {
        let mut m = "unsupported manifest version: ".to_owned();
        m.append(manifest.version.as_str());
        return Err(ManifestError::Validation(m));
    }
    if manifest.name.as_str().is_empty() {
        return Err(ManifestError::Validation("manifest name must not be empty".to_owned()));
    }
    let ids = collect_field_ids(&manifest.steps);
    let ghost idv = ids@.map_values(|x: String| x@);
    let ghost ss = manifest.steps@;
    let mut steps_seen: Vec<String> = Vec::new();
    let mut fields_seen: Vec<String> = Vec::new();
    let mut i: usize = 0;
    while i < manifest.steps.len()
        invariant
            i <= ss.len(),
            ss == manifest.steps@,
            manifest.version@ == "1"@,
            manifest.name@.len() > 0,
            idv == ids@.map_values(|x: String| x@),
            idv == field_ids(ss),
            steps_seen@.map_values(|x: String| x@) == step_ids(ss.take(i as int)),
            fields_seen@.map_values(|x: String| x@) == field_ids(ss.take(i as int)),
            steps_error(ss, idv, 0) == steps_error(ss, idv, i as int),
        decreases manifest.steps.len() - i,
    {
        let s = &manifest.steps[i];
        match check_step(s, &ids, &steps_seen, &mut fields_seen) {
            Some(m) => {
                return Err(ManifestError::Validation(m));
            },
            None => {},
        }
        let ghost before = steps_seen@;
        steps_seen.push(s.id.clone());
        assert(steps_seen@.map_values(|x: String| x@) =~= before.map_values(|x: String| x@).push(
            s.id@,
        ));
        assert(ss.take(i + 1).drop_last() =~= ss.take(i as int));
        assert(step_ids(ss.take(i + 1)) =~= step_ids(ss.take(i as int)).push(s.id@));
        i = i + 1;
    }
    Ok(())
}

// ── The rules as a whole ────────────────────────────────────────────────────

/// The id of field `j` of step `k`.
pub open spec fn fid(ss: Seq<Step>, k: int, j: int) -> Seq<char> {
    ss[k].fields@[j].id@
}

/// `(k, j)` names a field of the steps `ss`.
pub open spec fn is_field(ss: Seq<Step>, k: int, j: int) -> bool {
    0 <= k < ss.len() && 0 <= j < ss[k].fields@.len()
}

/// Field `(k1, j1)` comes before field `(k2, j2)`.
pub open spec fn before(k1: int, j1: int, k2: int, j2: int) -> bool {
    k1 < k2 || (k1 == k2 && j1 < j2)
}

/// The rules of a field on its own: a non-empty id, options for a `select`,
/// and a `show_when` naming some field of the manifest.
pub open spec fn field_ok(f: Field, ss: Seq<Step>) -> bool {
    &&& f.id@.len() > 0
    &&& !(f.field_type == FieldType::Select && f.options is None)
    &&& (f.show_when matches Some(sw) ==> exists|k: int, j: int| #[trigger] is_field(ss, k, j) && fid(ss, k, j) == sw.field@)
}

/// Every rule of a valid manifest, stated over all its steps, fields and
/// write rules at once.
pub open spec fn manifest_rules_hold(m: Manifest) -> bool {
    let ss = m.steps@;
    &&& m.version@ == "1"@
    &&& m.name@.len() > 0
    &&& forall|k: int| 0 <= k < ss.len() ==> (#[trigger] ss[k]).id@.len() > 0
    &&& forall|k1: int, k2: int| 0 <= k1 < k2 < ss.len() ==> (#[trigger] ss[k1]).id@ != (#[trigger] ss[k2]).id@
    &&& forall|k: int, j: int| #[trigger] is_field(ss, k, j) ==> field_ok(ss[k].fields@[j], ss)
    &&& forall|k1: int, j1: int, k2: int, j2: int|
        #[trigger] is_field(ss, k1, j1) && #[trigger] is_field(ss, k2, j2) && before(k1, j1, k2, j2)
            ==> fid(ss, k1, j1) != fid(ss, k2, j2)
    &&& forall|k: int, r: int| 0 <= k < ss.len() && 0 <= r < ss[k].writes@.len() ==> (#[trigger] ss[k].writes@[r]).path@.len() > 0
}

proof fn lemma_field_ids(ss: Seq<Step>, x: Seq<char>)
    ensures
        field_ids(ss).contains(x) <==> exists|k: int, j: int| #[trigger] is_field(ss, k, j) && fid(ss, k, j) == x,
    decreases ss.len(),
{
    if ss.len() > 0 {
        let d = ss.drop_last();
        let last = ids_of(ss.last().fields@);
        lemma_field_ids(d, x);
        assert(field_ids(ss) == field_ids(d) + last);
        if field_ids(ss).contains(x) {
            let n = choose|n: int| 0 <= n < field_ids(ss).len() && field_ids(ss)[n] == x;
            if n < field_ids(d).len() {
                assert(field_ids(d)[n] == x);
                assert(field_ids(d).contains(x));
                let (k, j) = choose|k: int, j: int| #[trigger] is_field(d, k, j) && fid(d, k, j) == x;
                assert(is_field(ss, k, j) && fid(ss, k, j) == x);
            } else {
                let j = n - field_ids(d).len();
                assert(last[j] == x);
                assert(is_field(ss, ss.len() - 1, j) && fid(ss, ss.len() - 1, j) == x);
            }
        }
        if exists|k: int, j: int| #[trigger] is_field(ss, k, j) && fid(ss, k, j) == x {
            let (k, j) = choose|k: int, j: int| #[trigger] is_field(ss, k, j) && fid(ss, k, j) == x;
            if k < ss.len() - 1 {
                assert(is_field(d, k, j) && fid(d, k, j) == x);
                let n = choose|n: int| 0 <= n < field_ids(d).len() && field_ids(d)[n] == x;
                assert(field_ids(ss)[n] == x);
            } else {
                assert(field_ids(ss)[field_ids(d).len() + j] == x);
            }
        }
    }
}

proof fn lemma_steps_error_none(ss: Seq<Step>, ids: Seq<Seq<char>>, i: int)
    requires
        0 <= i <= ss.len(),
    ensures
        steps_error(ss, ids, i) is None <==> forall|k: int|
            i <= k < ss.len() ==> (#[trigger] step_error(
                ss[k],
                ids,
                step_ids(ss.take(k)),
                field_ids(ss.take(k)),
            )) is None,
    decreases ss.len() - i,
{
    if i < ss.len() {
        lemma_steps_error_none(ss, ids, i + 1);
    }
}

proof fn lemma_fields_error_none(
    sid: Seq<char>,
    fs: Seq<Field>,
    ids: Seq<Seq<char>>,
    seen: Seq<Seq<char>>,
    j: int,
)
    requires
        0 <= j <= fs.len(),
    ensures
        fields_error(sid, fs, ids, seen, j) is None <==> forall|n: int|
            j <= n < fs.len() ==> (#[trigger] field_error(sid, fs[n], ids, seen + ids_of(fs.take(n))))
                is None,
    decreases fs.len() - j,
{
    if j < fs.len() {
        lemma_fields_error_none(sid, fs, ids, seen, j + 1);
    }
}

proof fn lemma_writes_error_none(sid: Seq<char>, ws: Seq<WriteRule>, i: int)
    requires
        0 <= i <= ws.len(),
    ensures
        writes_error(sid, ws, i) is None <==> forall|r: int| i <= r < ws.len() ==> (#[trigger] ws[r]).path@.len() > 0,
    decreases ws.len() - i,
{
    if i < ws.len() {
        lemma_writes_error_none(sid, ws, i + 1);
    }
}

/// The field `(k, j)` passes the checks made when it is reached: its own
/// rules, and no earlier field has its id.
pub open spec fn field_checked(ss: Seq<Step>, k: int, j: int) -> bool {
    &&& field_ok(ss[k].fields@[j], ss)
    &&& forall|k1: int, j1: int| #[trigger] is_field(ss, k1, j1) && before(k1, j1, k, j) ==> fid(ss, k1, j1) != fid(ss, k, j)
}

proof fn lemma_field_check(ss: Seq<Step>, k: int, j: int)
    requires
        is_field(ss, k, j),
    ensures
        field_error(
            ss[k].id@,
            ss[k].fields@[j],
            field_ids(ss),
            field_ids(ss.take(k)) + ids_of(ss[k].fields@.take(j)),
        ) is None <==> field_checked(ss, k, j),
{
    let f = ss[k].fields@[j];
    let tk = ss.take(k);
    let seen = field_ids(tk) + ids_of(ss[k].fields@.take(j));
    lemma_field_ids(tk, f.id@);
    if let Some(sw) = f.show_when {
        lemma_field_ids(ss, sw.field@);
    }
    assert(seen.contains(f.id@) <==> exists|k1: int, j1: int| #[trigger] is_field(ss, k1, j1) && before(k1, j1, k, j) && fid(ss, k1, j1) == f.id@) by {
        if seen.contains(f.id@) {
            let n = choose|n: int| 0 <= n < seen.len() && seen[n] == f.id@;
            if n < field_ids(tk).len() {
                assert(field_ids(tk)[n] == f.id@);
                assert(field_ids(tk).contains(f.id@));
                let (k1, j1) = choose|k1: int, j1: int| #[trigger] is_field(tk, k1, j1) && fid(tk, k1, j1) == f.id@;
                assert(is_field(ss, k1, j1) && before(k1, j1, k, j) && fid(ss, k1, j1) == f.id@);
            } else {
                let j1 = n - field_ids(tk).len();
                assert(ids_of(ss[k].fields@.take(j))[j1] == f.id@);
                assert(is_field(ss, k, j1) && before(k, j1, k, j) && fid(ss, k, j1) == f.id@);
            }
        }
        if exists|k1: int, j1: int| #[trigger] is_field(ss, k1, j1) && before(k1, j1, k, j) && fid(ss, k1, j1) == f.id@ {
            let (k1, j1) = choose|k1: int, j1: int| #[trigger] is_field(ss, k1, j1) && before(k1, j1, k, j) && fid(ss, k1, j1) == f.id@;
            if k1 < k {
                assert(is_field(tk, k1, j1) && fid(tk, k1, j1) == f.id@);
                let n = choose|n: int| 0 <= n < field_ids(tk).len() && field_ids(tk)[n] == f.id@;
                assert(seen[n] == f.id@);
            } else {
                assert(seen[field_ids(tk).len() + j1] == f.id@);
            }
        }
    }
}

/// The rules of `validate` as a whole: a manifest is valid exactly when its
/// version is `"1"`, its name is not empty, every step has a non-empty id
/// that no other step has, every field has a non-empty id that no other
/// field of any step has, every `select` field has options, every
/// `show_when` names a field of some step, and every write rule has a
/// non-empty path.
pub proof fn law_validate_rules(m: Manifest)
    ensures
        manifest_error(m) is None <==> manifest_rules_hold(m),
{
    let ss = m.steps@;
    let ids = field_ids(ss);
    if m.version@ == "1"@ && m.name@.len() > 0 {
        lemma_steps_error_none(ss, ids, 0);
        assert forall|k: int| 0 <= k < ss.len() implies (#[trigger] step_error(
            ss[k],
            ids,
            step_ids(ss.take(k)),
            field_ids(ss.take(k)),
        ) is None <==> {
            &&& ss[k].id@.len() > 0
            &&& forall|k1: int| 0 <= k1 < k ==> ss[k1].id@ != ss[k].id@
            &&& forall|j: int| 0 <= j < ss[k].fields@.len() ==> #[trigger] field_checked(ss, k, j)
            &&& forall|r: int| 0 <= r < ss[k].writes@.len() ==> (#[trigger] ss[k].writes@[r]).path@.len() > 0
        }) by {
            let s = ss[k];
            assert(step_ids(ss.take(k)).contains(s.id@) <==> exists|k1: int| 0 <= k1 < k && ss[k1].id@ == s.id@) by {
                if step_ids(ss.take(k)).contains(s.id@) {
                    let n = choose|n: int| 0 <= n < step_ids(ss.take(k)).len() && step_ids(ss.take(k))[n] == s.id@;
                    assert(ss[n].id@ == s.id@);
                }
                if exists|k1: int| 0 <= k1 < k && ss[k1].id@ == s.id@ {
                    let k1 = choose|k1: int| 0 <= k1 < k && ss[k1].id@ == s.id@;
                    assert(step_ids(ss.take(k))[k1] == s.id@);
                }
            }
            lemma_fields_error_none(s.id@, s.fields@, ids, field_ids(ss.take(k)), 0);
            lemma_writes_error_none(s.id@, s.writes@, 0);
            let fields_ok = forall|j: int| 0 <= j < s.fields@.len() ==> #[trigger] field_checked(ss, k, j);
            let fields_none = forall|n: int| 0 <= n < s.fields@.len() ==> (#[trigger] field_error(
                s.id@,
                s.fields@[n],
                ids,
                field_ids(ss.take(k)) + ids_of(s.fields@.take(n)),
            )) is None;
            if fields_none {
                assert forall|j: int| 0 <= j < s.fields@.len() implies #[trigger] field_checked(ss, k, j) by {
                    lemma_field_check(ss, k, j);
                    assert(field_error(
                        s.id@,
                        s.fields@[j],
                        ids,
                        field_ids(ss.take(k)) + ids_of(s.fields@.take(j)),
                    ) is None);
                }
            }
            if fields_ok {
                assert forall|n: int| 0 <= n < s.fields@.len() implies (#[trigger] field_error(
                    s.id@,
                    s.fields@[n],
                    ids,
                    field_ids(ss.take(k)) + ids_of(s.fields@.take(n)),
                )) is None by {
                    lemma_field_check(ss, k, n);
                    assert(field_checked(ss, k, n));
                }
            }
            assert(fields_ok <==> fields_none);
            assert(fields_error(s.id@, s.fields@, ids, field_ids(ss.take(k)), 0) is None <==> fields_none);
        }
        if manifest_error(m) is None {
            assert forall|k1: int, k2: int| 0 <= k1 < k2 < ss.len() implies (#[trigger] ss[k1]).id@
                != (#[trigger] ss[k2]).id@ by {
                assert(step_error(ss[k2], ids, step_ids(ss.take(k2)), field_ids(ss.take(k2))) is None);
            }
            assert forall|k: int, j: int| #[trigger] is_field(ss, k, j) implies field_ok(ss[k].fields@[j], ss) by {
                assert(step_error(ss[k], ids, step_ids(ss.take(k)), field_ids(ss.take(k))) is None);
                assert(field_checked(ss, k, j));
            }
            assert forall|k1: int, j1: int, k2: int, j2: int|
                #[trigger] is_field(ss, k1, j1) && #[trigger] is_field(ss, k2, j2) && before(k1, j1, k2, j2)
                implies fid(ss, k1, j1) != fid(ss, k2, j2) by {
                assert(step_error(ss[k2], ids, step_ids(ss.take(k2)), field_ids(ss.take(k2))) is None);
                assert(field_checked(ss, k2, j2));
            }
            assert forall|k: int, r: int| 0 <= k < ss.len() && 0 <= r < ss[k].writes@.len() implies (#[trigger] ss[k].writes@[r]).path@.len() > 0 by {
                assert(step_error(ss[k], ids, step_ids(ss.take(k)), field_ids(ss.take(k))) is None);
            }
            assert forall|k: int| 0 <= k < ss.len() implies (#[trigger] ss[k]).id@.len() > 0 by {
                assert(step_error(ss[k], ids, step_ids(ss.take(k)), field_ids(ss.take(k))) is None);
            }
        }
        if manifest_rules_hold(m) {
            assert forall|k: int| 0 <= k < ss.len() implies (#[trigger] step_error(
                ss[k],
                ids,
                step_ids(ss.take(k)),
                field_ids(ss.take(k)),
            )) is None by {
                assert(ss[k].id@.len() > 0);
                assert forall|k1: int| 0 <= k1 < k implies ss[k1].id@ != ss[k].id@ by {
                    assert(ss[k1].id@ != ss[k].id@);
                }
                assert forall|j: int| 0 <= j < ss[k].fields@.len() implies #[trigger] field_checked(ss, k, j) by {
                    assert(is_field(ss, k, j));
                    assert(field_ok(ss[k].fields@[j], ss));
                }
            }
        }
    }
}

/// Finishes reading a `sunburn.json`: a document that could not be decoded
/// is refused with the decoder's message, and a decoded manifest must
/// [`validate`].
pub fn check_decoded(decoded: Result<Manifest, String>) -> (r: Result<Manifest, ManifestError>)
    ensures
        match decoded {
            Err(m) => r matches Err(ManifestError::Parse(x)) && x@ == m@,
            Ok(man) => match manifest_error(man) {
                None => r matches Ok(x) && x == man,
                Some(msg) => r matches Err(ManifestError::Validation(x)) && x@ == msg,
            },
        },
{
    match decoded {
        Err(m) => Err(ManifestError::Parse(m)),
        Ok(man) => match validate(&man) {
            Ok(()) => Ok(man),
            Err(e) => Err(e),
        },
    }
}

// ── Template substitution ───────────────────────────────────────────────────

/// The token `{{key}}`.
pub open spec fn placeholder(key: Seq<char>) -> Seq<char> {
    seq!['{', '{'] + key + seq!['}', '}']
}

/// `e` lists each entry of the map `m` exactly once, in some order.
pub open spec fn is_walk(m: Map<String, String>, e: Seq<(String, String)>) -> bool {
    &&& e.len() == m.len()
    &&& forall|i: int|
        0 <= i < e.len() ==> #[trigger] m.contains_key(e[i].0) && m[e[i].0] == e[i].1
    &&& forall|k: String| #[trigger] m.contains_key(k) ==> exists|i: int| 0 <= i < e.len() && e[i].0 == k
    &&& forall|i: int, j: int| 0 <= i < j < e.len() ==> #[trigger] e[i].0@ != #[trigger] e[j].0@
}

/// The value of the entry of `m` whose key reads `key`, if there is one.
pub open spec fn map_value(m: Map<String, String>, key: Seq<char>) -> Option<Seq<char>> {
    if exists|k: String| m.contains_key(k) && k@ == key {
        Some(m[choose|k: String| m.contains_key(k) && k@ == key]@)
    } else {
        None
    }
}

/// For the first of the fields `fs[i..]` with id `key`: its default, or the
/// empty text when it has none.
pub open spec fn field_fallback(fs: Seq<Field>, key: Seq<char>, i: int) -> Option<Seq<char>>
    decreases fs.len() - i,
{
    if i < 0 || i >= fs.len() {
        None
    } else if fs[i].id@ == key {
        Some(
            match fs[i].default {
                Some(d) => d@,
                None => Seq::empty(),
            },
        )
    } else {
        field_fallback(fs, key, i + 1)
    }
}

/// What the token of `key` becomes: the collected value in `m`; for a field
/// of `fs` that was not filled (hidden, or left out), its default or the
/// empty text; `None` (the token is kept) for any other key.
pub open spec fn token_value(m: Map<String, String>, fs: Seq<Field>, key: Seq<char>) -> Option<Seq<char>> {
    match map_value(m, key) {
        Some(v) => Some(v),
        None => field_fallback(fs, key, 0),
    }
}

/// Where the token that starts at `i` ends: at a `{{`, the first `}}` after
/// it.
pub open spec fn token_end(t: Seq<char>, i: int) -> Option<int> {
    if matches_at(t, seq!['{', '{'], i) {
        find_from(t, seq!['}', '}'], i + 2)
    } else {
        None
    }
}

/// A token that has a value starts at `i`.
pub open spec fn has_value_token(t: Seq<char>, m: Map<String, String>, fs: Seq<Field>, i: int) -> bool {
    let end = token_end(t, i);
    &&& end is Some
    &&& i + 2 <= end->0
    &&& end->0 + 2 <= t.len()
    &&& token_value(m, fs, t.subrange(i + 2, end->0)) is Some
}

/// One pass over the template `t` from index `i`: each token `{{key}}` that
/// has a value is replaced by it, and the scan goes on after the token, so
/// that text brought in by a value is never substituted again; any other
/// character is kept.
pub open spec fn fill(t: Seq<char>, m: Map<String, String>, fs: Seq<Field>, i: int) -> Seq<char>
    decreases t.len() - i,
{
    if i < 0 || i >= t.len() {
        Seq::empty()
    } else {
        if has_value_token(t, m, fs, i) {
            let end = token_end(t, i)->0;
            token_value(m, fs, t.subrange(i + 2, end))->0 + fill(t, m, fs, end + 2)
        } else {
            seq![t[i]] + fill(t, m, fs, i + 1)
        }
    }
}

/// The entries of `values`, in the order in which std's `HashMap::iter`
/// walks them. That order depends on the map's random hasher; what is stated
/// is only that every entry of the map is listed exactly once.
#[verifier::external_body]
pub(crate) fn map_entries(values: &HashMap<String, String>) -> (r: Vec<(String, String)>)
    ensures
        is_walk(values@, r@),
{
    values.iter().map(|(k, v)| (k.clone(), v.clone())).collect()
}

/// First index at or after `k` of an entry whose key reads `key`.
pub open spec fn entry_index(e: Seq<(String, String)>, key: Seq<char>, k: int) -> Option<int>
    decreases e.len() - k,
{
    if k < 0 || k >= e.len() {
        None
    } else if e[k].0@ == key {
        Some(k)
    } else {
        entry_index(e, key, k + 1)
    }
}

proof fn lemma_entry_index(e: Seq<(String, String)>, key: Seq<char>, k: int)
    requires
        0 <= k,
    ensures
        match entry_index(e, key, k) {
            Some(j) => k <= j < e.len() && e[j].0@ == key,
            None => forall|n: int| k <= n < e.len() ==> #[trigger] e[n].0@ != key,
        },
    decreases e.len() - k,
{
    if k < e.len() && e[k].0@ != key {
        lemma_entry_index(e, key, k + 1);
    }
}

/// Looking a key up in a walk of a map gives the map's value for it.
proof fn lemma_entry_index_walk(m: Map<String, String>, e: Seq<(String, String)>, key: Seq<char>)
    requires
        is_walk(m, e),
    ensures
        match entry_index(e, key, 0) {
            Some(j) => map_value(m, key) == Some(e[j].1@),
            None => map_value(m, key) is None,
        },
{
    lemma_entry_index(e, key, 0);
    match entry_index(e, key, 0) {
        Some(j) => {
            assert(m.contains_key(e[j].0));
            let kc = choose|k: String| m.contains_key(k) && k@ == key;
            assert(m.contains_key(kc) && kc@ == key);
            let ic = choose|i: int| 0 <= i < e.len() && e[i].0 == kc;
            if ic < j {
                assert(e[ic].0@ != e[j].0@);
            } else if ic > j {
                assert(e[j].0@ != e[ic].0@);
            }
        },
        None => {
            if exists|k: String| m.contains_key(k) && k@ == key {
                let kc = choose|k: String| m.contains_key(k) && k@ == key;
                let ic = choose|i: int| 0 <= i < e.len() && e[i].0 == kc;
                assert(e[ic].0@ == key);
            }
        },
    }
}

fn lookup_entry(e: &Vec<(String, String)>, key: &[char]) -> (r: Option<Vec<char>>)
    ensures
        match entry_index(e@, key@, 0) {
            Some(j) => r matches Some(v) && v@ == e@[j].1@,
            None => r is None,
        },
{
    let mut k: usize = 0;
    while k < e.len()
        invariant
            k <= e@.len(),
            entry_index(e@, key@, 0) == entry_index(e@, key@, k as int),
        decreases e.len() - k,
    {
        if chars_eq(chars_of(e[k].0.as_str()).as_slice(), key) {
            return Some(chars_of(e[k].1.as_str()));
        }
        k = k + 1;
    }
    None
}

fn lookup_field(fs: &Vec<Field>, key: &[char]) -> (r: Option<Vec<char>>)
    ensures
        match field_fallback(fs@, key@, 0) {
            Some(d) => r matches Some(v) && v@ == d,
            None => r is None,
        },
{
    let mut k: usize = 0;
    while k < fs.len()
        invariant
            k <= fs@.len(),
            field_fallback(fs@, key@, 0) == field_fallback(fs@, key@, k as int),
        decreases fs.len() - k,
    {
        if chars_eq(chars_of(fs[k].id.as_str()).as_slice(), key) {
            return match &fs[k].default {
                Some(d) => Some(chars_of(d.as_str())),
                None => Some(Vec::new()),
            };
        }
        k = k + 1;
    }
    None
}

fn token_value_exec(
    e: &Vec<(String, String)>,
    fs: &Vec<Field>,
    key: &[char],
    Ghost(m): Ghost<Map<String, String>>,
) -> (r: Option<Vec<char>>)
    requires
        is_walk(m, e@),
    ensures
        match token_value(m, fs@, key@) {
            Some(v) => r matches Some(x) && x@ == v,
            None => r is None,
        },
{
    proof {
        lemma_entry_index_walk(m, e@, key@);
    }
    match lookup_entry(e, key) {
        Some(v) => Some(v),
        None => lookup_field(fs, key),
    }
}

/// One substitution pass over `t` with the values of the walk `entries` of
/// `m` and the fallbacks of the fields `fields`.
pub(crate) fn fill_chars(
    t: &[char],
    entries: &Vec<(String, String)>,
    fields: &Vec<Field>,
    Ghost(m): Ghost<Map<String, String>>,
) -> (r: Vec<char>)
    requires
        is_walk(m, entries@),
    ensures
        r@ == fill(t@, m, fields@, 0),
{
    let mut open_p: Vec<char> = Vec::new();
    open_p.push('{');
    open_p.push('{');
    let mut close_p: Vec<char> = Vec::new();
    close_p.push('}');
    close_p.push('}');
    assert(open_p@ =~= seq!['{', '{']);
    assert(close_p@ =~= seq!['}', '}']);
    let mut out: Vec<char> = Vec::new();
    let mut i: usize = 0;
    while i < t.len()
        invariant
            i <= t@.len(),
            is_walk(m, entries@),
            open_p@ == seq!['{', '{'],
            close_p@ == seq!['}', '}'],
            out@ + fill(t@, m, fields@, i as int) == fill(t@, m, fields@, 0),
        decreases t.len() - i,
    {
        let mut found: Option<(Vec<char>, usize)> = None;
        if t.len() - i >= 2 && match_at(t, open_p.as_slice(), i) {
            match find_chars(t, close_p.as_slice(), i + 2) {
                Some(j) => {
                    proof {
                        lemma_find_from_found(t@, close_p@, i + 2);
                    }
                    let key = copy_range(t, i + 2, j);
                    match token_value_exec(entries, fields, key.as_slice(), Ghost(m)) {
                        Some(v) => {
                            found = Some((v, j + 2));
                        },
                        None => {},
                    }
                },
                None => {},
            }
        }
        let ghost before = out@;
        match found {
            Some((v, next)) => {
                push_all(&mut out, v.as_slice());
                assert(out@ + fill(t@, m, fields@, next as int) =~= before + (v@ + fill(
                    t@,
                    m,
                    fields@,
                    next as int,
                )));
                i = next;
            },
            None => {
                out.push(t[i]);
                assert(out@ + fill(t@, m, fields@, i + 1) =~= before + (seq![t@[i as int]] + fill(
                    t@,
                    m,
                    fields@,
                    i + 1,
                )));
                i = i + 1;
            },
        }
    }
    assert(out@ + fill(t@, m, fields@, i as int) =~= out@);
    out
}

/// Replace the `{{key}}` tokens of `template` whose key is a key of
/// `values` by its value, in one pass: the result does not depend on the
/// order of the map, text brought in by a value is not substituted again,
/// and a token with no entry is left as it is.
pub fn substitute(template: &str, values: &HashMap<String, String>) -> (r: String)
    ensures
        r@ == fill(template@, values@, Seq::empty(), 0),
{
    let entries = map_entries(values);
    let fields: Vec<Field> = Vec::new();
    let out = fill_chars(chars_of(template).as_slice(), &entries, &fields, Ghost(values@));
    string_from_chars(out.as_slice())
}

proof fn lemma_fill_copies(t: Seq<char>, m: Map<String, String>, fs: Seq<Field>, i: int)
    requires
        0 <= i <= t.len(),
        forall|k: int| i <= k < t.len() ==> !#[trigger] has_value_token(t, m, fs, k),
    ensures
        fill(t, m, fs, i) == t.subrange(i, t.len() as int),
    decreases t.len() - i,
{
    if i < t.len() {
        lemma_fill_copies(t, m, fs, i + 1);
        assert(t.subrange(i, t.len() as int) =~= seq![t[i]] + t.subrange(i + 1, t.len() as int));
    } else {
        assert(t.subrange(i, t.len() as int) =~= Seq::<char>::empty());
    }
}

/// Tokens with no value are kept: when no token of the template has a
/// value, substitution gives the template back unchanged (in particular
/// with no values and no fields).
pub proof fn law_tokens_without_value_kept(t: Seq<char>, m: Map<String, String>, fs: Seq<Field>)
    requires
        forall|k: int| 0 <= k < t.len() ==> !#[trigger] has_value_token(t, m, fs, k),
    ensures
        fill(t, m, fs, 0) == t,
{
    lemma_fill_copies(t, m, fs, 0);
    assert(t.subrange(0, t.len() as int) =~= t);
}

/// With no values and no fields, substitution changes nothing.
pub proof fn law_substitute_nothing(t: Seq<char>)
    ensures
        fill(t, Map::<String, String>::empty(), Seq::<Field>::empty(), 0) == t,
{
    law_tokens_without_value_kept(t, Map::<String, String>::empty(), Seq::<Field>::empty());
}

/// A template that is one token `{{key}}` (a key without braces) becomes
/// the token's value exactly, whatever that value holds, since a value is
/// not substituted again; with no value the token is kept.
pub proof fn law_token_replaced_once(m: Map<String, String>, fs: Seq<Field>, key: Seq<char>)
    requires
        forall|k: int| 0 <= k < key.len() ==> #[trigger] key[k] != '{' && key[k] != '}',
    ensures
        fill(placeholder(key), m, fs, 0) == match token_value(m, fs, key) {
            Some(v) => v,
            None => placeholder(key),
        },
{
    let t = placeholder(key);
    let n: int = key.len() as int;
    let cl = seq!['}', '}'];
    assert(matches_at(t, seq!['{', '{'], 0)) by {
        assert(t[0] == '{' && t[1] == '{');
    }
    assert(matches_at(t, cl, n + 2)) by {
        assert(t[n + 2] == '}' && t[n + 3] == '}');
    }
    assert forall|k: int| 2 <= k < n + 2 implies !matches_at(t, cl, k) by {
        assert(t[k] == key[k - 2]);
        assert(key[k - 2] != '}');
        if matches_at(t, cl, k) {
            assert(t[k + 0] == cl[0]);
        }
    }
    lemma_find_from_first(t, cl, 2, n + 2);
    assert(token_end(t, 0) == Some(n + 2));
    assert(t.subrange(2, n + 2) =~= key);
    match token_value(m, fs, key) {
        Some(v) => {
            assert(fill(t, m, fs, n + 4) == Seq::<char>::empty());
            assert(v + Seq::<char>::empty() =~= v);
        },
        None => {
            assert forall|k: int| 1 <= k < t.len() implies !#[trigger] has_value_token(t, m, fs, k) by {
                if has_value_token(t, m, fs, k) {
                    assert(matches_at(t, seq!['{', '{'], k));
                    assert(t[k + 1] == '{');
                    if k + 1 < n + 2 {
                        assert(t[k + 1] == key[k - 1]);
                    } else {
                        assert(t[k + 1] == '}');
                    }
                }
            }
            lemma_fill_copies(t, m, fs, 1);
            assert(seq![t[0]] + t.subrange(1, t.len() as int) =~= t);
        },
    }
}

proof fn lemma_find_from_first(s: Seq<char>, p: Seq<char>, i: int, j: int)
    requires
        0 <= i <= j,
        matches_at(s, p, j),
        forall|k: int| i <= k < j ==> !matches_at(s, p, k),
    ensures
        find_from(s, p, i) == Some(j),
    decreases j - i,
{
    if i < j {
        lemma_find_from_first(s, p, i + 1, j);
    }
}

/// A field that was not filled gets its default, or the empty text when it
/// has none; a collected value comes first.
pub proof fn law_unfilled_field_falls_back(m: Map<String, String>, fs: Seq<Field>, i: int)
    requires
        0 <= i < fs.len(),
        forall|j: int| 0 <= j < i ==> #[trigger] fs[j].id@ != fs[i].id@,
    ensures
        map_value(m, fs[i].id@) is None ==> token_value(m, fs, fs[i].id@) == Some(
            match fs[i].default {
                Some(d) => d@,
                None => Seq::<char>::empty(),
            },
        ),
        map_value(m, fs[i].id@) is Some ==> token_value(m, fs, fs[i].id@) == map_value(m, fs[i].id@),
{
    lemma_field_fallback_at(fs, i, 0);
}

proof fn lemma_field_fallback_at(fs: Seq<Field>, i: int, k: int)
    requires
        0 <= k <= i < fs.len(),
        forall|j: int| 0 <= j < i ==> #[trigger] fs[j].id@ != fs[i].id@,
    ensures
        field_fallback(fs, fs[i].id@, k) == Some(
            match fs[i].default {
                Some(d) => d@,
                None => Seq::<char>::empty(),
            },
        ),
    decreases i - k,
{
    if k < i {
        lemma_field_fallback_at(fs, i, k + 1);
    }
}


// ── Substitution over a whole template ─────────────────────────────────────

/// A `{{` starts at `q`.
pub open spec fn opens_at(t: Seq<char>, q: int) -> bool {
    matches_at(t, seq!['{', '{'], q)
}

/// `s` holds no brace.
pub open spec fn brace_free(s: Seq<char>) -> bool {
    forall|k: int| 0 <= k < s.len() ==> #[trigger] s[k] != '{' && s[k] != '}'
}

/// What the token of `key` gives in the filled text: its value, or the
/// token itself when it has none.
pub open spec fn token_out(m: Map<String, String>, fs: Seq<Field>, key: Seq<char>) -> Seq<char> {
    match token_value(m, fs, key) {
        Some(v) => v,
        None => placeholder(key),
    }
}

/// The template `x[i] {{k[i]}} x[i+1] ... {{k[n-1]}} x[n]`.
pub open spec fn template_of(x: Seq<Seq<char>>, k: Seq<Seq<char>>, i: int) -> Seq<char>
    decreases k.len() - i,
{
    if i < 0 || i >= k.len() {
        x[k.len() as int]
    } else {
        x[i] + placeholder(k[i]) + template_of(x, k, i + 1)
    }
}

/// The same text with every token replaced by what it gives.
pub open spec fn filled_of(
    x: Seq<Seq<char>>,
    k: Seq<Seq<char>>,
    m: Map<String, String>,
    fs: Seq<Field>,
    i: int,
) -> Seq<char>
    decreases k.len() - i,
{
    if i < 0 || i >= k.len() {
        x[k.len() as int]
    } else {
        x[i] + token_out(m, fs, k[i]) + filled_of(x, k, m, fs, i + 1)
    }
}

proof fn lemma_matches_at_shift(a: Seq<char>, b: Seq<char>, p: Seq<char>, i: int)
    requires
        i >= a.len(),
    ensures
        matches_at(a + b, p, i) == matches_at(b, p, i - a.len()),
{
    let t = a + b;
    let n = a.len() as int;
    if matches_at(t, p, i) {
        assert forall|q: int| 0 <= q < p.len() implies #[trigger] b[i - n + q] == p[q] by {
            assert(t[i + q] == p[q]);
            assert(t[i + q] == b[i + q - n]);
        }
    }
    if matches_at(b, p, i - n) {
        assert forall|q: int| 0 <= q < p.len() implies #[trigger] t[i + q] == p[q] by {
            assert(b[i - n + q] == p[q]);
            assert(t[i + q] == b[i + q - n]);
        }
    }
}

proof fn lemma_find_from_shift(a: Seq<char>, b: Seq<char>, p: Seq<char>, i: int)
    requires
        i >= a.len(),
    ensures
        find_from(a + b, p, i) == match find_from(b, p, i - a.len()) {
            Some(j) => Some(j + a.len()),
            None => None::<int>,
        },
    decreases (a + b).len() - i,
{
    lemma_matches_at_shift(a, b, p, i);
    if !(i + p.len() > (a + b).len()) && !matches_at(a + b, p, i) {
        lemma_find_from_shift(a, b, p, i + 1);
    }
}

proof fn lemma_fill_shift(a: Seq<char>, b: Seq<char>, m: Map<String, String>, fs: Seq<Field>, i: int)
    requires
        i >= a.len(),
    ensures
        fill(a + b, m, fs, i) == fill(b, m, fs, i - a.len()),
    decreases (a + b).len() - i,
{
    let t = a + b;
    let n = a.len() as int;
    if i < t.len() {
        lemma_matches_at_shift(a, b, seq!['{', '{'], i);
        lemma_find_from_shift(a, b, seq!['}', '}'], i + 2);
        assert(t[i] == b[i - n]);
        if let Some(e) = token_end(t, i) {
            if i + 2 <= e && e <= t.len() {
                assert(t.subrange(i + 2, e) =~= b.subrange(i - n + 2, e - n));
            }
        }
        if has_value_token(t, m, fs, i) {
            lemma_fill_shift(a, b, m, fs, token_end(t, i)->0 + 2);
        } else {
            lemma_fill_shift(a, b, m, fs, i + 1);
        }
    }
}

proof fn lemma_fill_copy(t: Seq<char>, m: Map<String, String>, fs: Seq<Field>, i: int, j: int)
    requires
        0 <= i <= j <= t.len(),
        forall|q: int| i <= q < j ==> !#[trigger] opens_at(t, q),
    ensures
        fill(t, m, fs, i) == t.subrange(i, j) + fill(t, m, fs, j),
    decreases j - i,
{
    if i < j {
        assert(!opens_at(t, i));
        lemma_fill_copy(t, m, fs, i + 1, j);
        assert(t.subrange(i, j) =~= seq![t[i]] + t.subrange(i + 1, j));
    } else {
        assert(t.subrange(i, j) =~= Seq::<char>::empty());
    }
}

proof fn lemma_no_open_in_brace_free(x: Seq<char>, rest: Seq<char>, q: int)
    requires
        brace_free(x),
        0 <= q < x.len(),
    ensures
        !opens_at(x + rest, q),
{
    if opens_at(x + rest, q) {
        assert((x + rest)[q + 0] == '{');
        assert((x + rest)[q] == x[q]);
    }
}

proof fn lemma_fill_token(key: Seq<char>, rest: Seq<char>, m: Map<String, String>, fs: Seq<Field>)
    requires
        brace_free(key),
    ensures
        fill(placeholder(key) + rest, m, fs, 0) == token_out(m, fs, key) + fill(rest, m, fs, 0),
{
    let ph = placeholder(key);
    let t = ph + rest;
    let n: int = key.len() as int;
    let cl = seq!['}', '}'];
    assert(t[0] == '{' && t[1] == '{' && t[n + 2] == '}' && t[n + 3] == '}');
    assert(opens_at(t, 0));
    assert(matches_at(t, cl, n + 2));
    assert forall|q: int| 2 <= q < n + 2 implies !matches_at(t, cl, q) by {
        assert(t[q] == key[q - 2]);
        if matches_at(t, cl, q) {
            assert(t[q + 0] == cl[0]);
        }
    }
    lemma_find_from_first(t, cl, 2, n + 2);
    assert(token_end(t, 0) == Some(n + 2));
    assert(t.subrange(2, n + 2) =~= key);
    lemma_fill_shift(ph, rest, m, fs, n + 4);
    match token_value(m, fs, key) {
        Some(v) => {},
        None => {
            assert forall|q: int| 1 <= q < n + 4 implies !#[trigger] opens_at(t, q) by {
                if opens_at(t, q) {
                    assert(t[q + 0] == '{' && t[q + 1] == '{');
                    if q == 1 {
                        if n > 0 {
                            assert(t[2] == key[0]);
                        }
                    } else if q < n + 2 {
                        assert(t[q] == key[q - 2]);
                    }
                }
            }
            lemma_fill_copy(t, m, fs, 1, n + 4);
            assert(seq![t[0]] + t.subrange(1, n + 4) =~= ph);
        },
    }
}

proof fn lemma_filled_of(
    x: Seq<Seq<char>>,
    k: Seq<Seq<char>>,
    m: Map<String, String>,
    fs: Seq<Field>,
    i: int,
)
    requires
        x.len() == k.len() + 1,
        0 <= i <= k.len(),
        forall|q: int| 0 <= q < x.len() ==> brace_free(#[trigger] x[q]),
        forall|q: int| 0 <= q < k.len() ==> brace_free(#[trigger] k[q]),
    ensures
        fill(template_of(x, k, i), m, fs, 0) == filled_of(x, k, m, fs, i),
    decreases k.len() - i,
{
    let xi = x[i];
    assert(brace_free(xi));
    if i == k.len() {
        assert forall|q: int| 0 <= q < xi.len() implies !#[trigger] opens_at(xi, q) by {
            lemma_no_open_in_brace_free(xi, Seq::<char>::empty(), q);
            assert(xi + Seq::<char>::empty() =~= xi);
        }
        lemma_fill_copy(xi, m, fs, 0, xi.len() as int);
        assert(xi.subrange(0, xi.len() as int) =~= xi);
    } else {
        lemma_filled_of(x, k, m, fs, i + 1);
        let rest = placeholder(k[i]) + template_of(x, k, i + 1);
        let t = xi + rest;
        assert(template_of(x, k, i) =~= t);
        assert forall|q: int| 0 <= q < xi.len() implies !#[trigger] opens_at(t, q) by {
            lemma_no_open_in_brace_free(xi, rest, q);
        }
        lemma_fill_copy(t, m, fs, 0, xi.len() as int);
        assert(t.subrange(0, xi.len() as int) =~= xi);
        lemma_fill_shift(xi, rest, m, fs, xi.len() as int);
        assert(brace_free(k[i]));
        lemma_fill_token(k[i], template_of(x, k, i + 1), m, fs);
        assert(filled_of(x, k, m, fs, i) =~= xi + (token_out(m, fs, k[i]) + filled_of(x, k, m, fs, i + 1)));
    }
}

/// Substitution over a whole template: for a template made of literal text
/// and tokens `{{key}}` (text and keys without braces), every token is
/// replaced by its value (a collected value, or a field's fallback) or kept
/// when it has none, and all the literal text is kept.
pub proof fn law_template_filled(x: Seq<Seq<char>>, k: Seq<Seq<char>>, m: Map<String, String>, fs: Seq<Field>)
    requires
        x.len() == k.len() + 1,
        forall|q: int| 0 <= q < x.len() ==> brace_free(#[trigger] x[q]),
        forall|q: int| 0 <= q < k.len() ==> brace_free(#[trigger] k[q]),
    ensures
        fill(template_of(x, k, 0), m, fs, 0) == filled_of(x, k, m, fs, 0),
{
    lemma_filled_of(x, k, m, fs, 0);
}

} // verus!
