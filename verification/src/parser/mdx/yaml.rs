//! The YAML front matter of an MDX document: read by `serde_yaml` into a tree of the
//! library's own, then turned into the root's data.
use vstd::prelude::*;
use crate::ast::node::{
    entries_view, insert, lemma_entries_view_index, lemma_values_view_push, values_view, DataEntry,
    DataValue, SValue, insert_data,
};
use crate::parser::org::directive::{obj_insert, obj_insert_data};
use crate::text::{eq_str, from_chars, lowercase, str_lowercase, to_chars, trim, trim_chars};
use crate::util::{iso_date_month_ok, iso_month_ok, iso_to_org_date, spec_iso_to_org_date};
use super::{spec_split_frontmatter, split_frontmatter};

verus! {

#[verifier::external_type_specification]
#[verifier::external_body]
pub struct ExYamlValue(serde_yaml::Value);

/// A YAML value: what it is, and how `serde_yaml` writes it out as text.
pub struct YamlValue {
    pub kind: YamlKind,
    pub text: String,
}

/// The kinds of YAML value; a number is kept as its `i64` value where it has one.
pub enum YamlKind {
    Null,
    Bool(bool),
    Number(Option<i64>),
    Str(String),
    Sequence(Vec<YamlValue>),
    Mapping(Vec<(YamlValue, YamlValue)>),
    Tagged,
}

/// The mathematical form of a YAML value.
pub struct SYaml {
    pub kind: SYamlKind,
    pub text: Seq<char>,
}

pub enum SYamlKind {
    Null,
    Bool(bool),
    Number(Option<i64>),
    Str(Seq<char>),
    Sequence(Seq<SYaml>),
    Mapping(Seq<(SYaml, SYaml)>),
    Tagged,
}

pub open spec fn yaml_view(v: YamlValue) -> SYaml
    decreases v, 3nat,
{
    SYaml { kind: yaml_kind_view(v.kind), text: v.text@ }
}

pub open spec fn yaml_kind_view(k: YamlKind) -> SYamlKind
    decreases k, 2nat,
{
    match k {
        YamlKind::Null => SYamlKind::Null,
        YamlKind::Bool(b) => SYamlKind::Bool(b),
        YamlKind::Number(n) => SYamlKind::Number(n),
        YamlKind::Str(s) => SYamlKind::Str(s@),
        YamlKind::Sequence(items) => SYamlKind::Sequence(yamls_view(items@)),
        YamlKind::Mapping(m) => SYamlKind::Mapping(yaml_pairs_view(m@)),
        YamlKind::Tagged => SYamlKind::Tagged,
    }
}

pub open spec fn yamls_view(s: Seq<YamlValue>) -> Seq<SYaml>
    decreases s, 0nat,
{
    if s.len() == 0 {
        Seq::empty()
    } else {
        yamls_view(s.drop_last()).push(yaml_view(s[s.len() - 1]))
    }
}

pub open spec fn yaml_pairs_view(s: Seq<(YamlValue, YamlValue)>) -> Seq<(SYaml, SYaml)>
    decreases s, 0nat,
{
    if s.len() == 0 {
        Seq::empty()
    } else {
        yaml_pairs_view(s.drop_last()).push((yaml_view(s[s.len() - 1].0), yaml_view(s[s.len() - 1].1)))
    }
}

impl View for YamlValue {
    type V = SYaml;

    open spec fn view(&self) -> SYaml {
        yaml_view(*self)
    }
}

/// What `serde_yaml::from_str::<serde_yaml::Value>` reads from `text`, where it reads a
/// value, each node with the text `serde_yaml::to_string` writes for it. Both calls are
/// functions of their input alone (no state, no environment), so what they give is a
/// function of `text`.
pub uninterp spec fn yaml_of(text: Seq<char>) -> Option<SYaml>;

/// Calls `serde_yaml::from_str` for a `serde_yaml::Value` and brings the value over
/// node by node; `None` where `serde_yaml` reports an error. The value it reads is
/// named, not stated.
#[verifier::external_body]
pub(crate) fn parse_yaml(text: &str) -> (r: Option<YamlValue>)
    ensures
        match r {
            Some(v) => yaml_of(text@) == Some(v@),
            None => yaml_of(text@) is None,
        },
{
    serde_yaml::from_str::<serde_yaml::Value>(text).ok().map(|v| yaml_value_of(&v))
}

/// The node-by-node copy that `parse_yaml` makes of what `serde_yaml` read, each node
/// with the text `serde_yaml::to_string` writes for it.
#[verifier::external_body]
fn yaml_value_of(v: &serde_yaml::Value) -> YamlValue {
    let kind = match v {
        serde_yaml::Value::Null => YamlKind::Null,
        serde_yaml::Value::Bool(b) => YamlKind::Bool(*b),
        serde_yaml::Value::Number(n) => YamlKind::Number(n.as_i64()),
        serde_yaml::Value::String(s) => YamlKind::Str(s.clone()),
        serde_yaml::Value::Sequence(s) => YamlKind::Sequence(s.iter().map(yaml_value_of).collect()),
        serde_yaml::Value::Mapping(m) => {
            YamlKind::Mapping(m.iter().map(|(k, v)| (yaml_value_of(k), yaml_value_of(v))).collect())
        },
        serde_yaml::Value::Tagged(_) => YamlKind::Tagged,
    };
    YamlValue { kind, text: serde_yaml::to_string(v).unwrap_or_default() }
}

proof fn lemma_yamls_index(s: Seq<YamlValue>)
    ensures
        yamls_view(s).len() == s.len(),
        forall|i: int| 0 <= i < s.len() ==> #[trigger] yamls_view(s)[i] == s[i]@,
    decreases s.len(),
{
    if s.len() > 0 {
        lemma_yamls_index(s.drop_last());
    }
}

proof fn lemma_yaml_pairs_index(s: Seq<(YamlValue, YamlValue)>)
    ensures
        yaml_pairs_view(s).len() == s.len(),
        forall|i: int| 0 <= i < s.len() ==> #[trigger] yaml_pairs_view(s)[i] == (s[i].0@, s[i].1@),
    decreases s.len(),
{
    if s.len() > 0 {
        lemma_yaml_pairs_index(s.drop_last());
    }
}

// ------------------------------------------------------------------
// Front matter from YAML
// ------------------------------------------------------------------

/// An item of a top-level sequence: a string as it is, anything else as its YAML text.
pub open spec fn item_value(it: SYaml) -> SValue {
    match it.kind {
        SYamlKind::Str(s) => SValue::Str(s),
        _ => SValue::Str(trim(it.text)),
    }
}

pub open spec fn item_values(items: Seq<SYaml>) -> Seq<SValue>
    decreases items.len(),
{
    if items.len() == 0 {
        Seq::empty()
    } else {
        item_values(items.drop_last()).push(item_value(items.last()))
    }
}

/// A nested mapping as an object with its keys in order; entries whose key is not a
/// string are left out, and a later entry replaces an earlier one with the same key.
pub open spec fn nested_object(m: Seq<(SYaml, SYaml)>) -> Seq<(Seq<char>, SValue)>
    decreases m,
{
    if m.len() == 0 {
        Seq::empty()
    } else {
        let rest = nested_object(m.drop_last());
        let e = m.last();
        match e.0.kind {
            SYamlKind::Str(key) => obj_insert(rest, key, nested_value(e.1)),
            _ => rest,
        }
    }
}

/// A value inside a nested mapping: strings, booleans, integers, sequences and
/// mappings keep their kind; a number without an `i64` value stays a number, held as
/// its YAML text; null and tagged values become null.
pub open spec fn nested_value(v: SYaml) -> SValue
    decreases v,
{
    match v.kind {
        SYamlKind::Str(s) => SValue::Str(s),
        SYamlKind::Mapping(m) => SValue::Object(nested_object(m)),
        SYamlKind::Sequence(items) => SValue::List(nested_items(items)),
        SYamlKind::Bool(b) => SValue::Bool(b),
        SYamlKind::Number(n) => match n {
            Some(i) => SValue::Int(i),
            None => SValue::Real(trim(v.text)),
        },
        SYamlKind::Null => SValue::Null,
        SYamlKind::Tagged => SValue::Null,
    }
}

/// The items of a sequence inside a nested mapping: strings and mappings keep their
/// kind, anything else is kept as its YAML text.
pub open spec fn nested_items(items: Seq<SYaml>) -> Seq<SValue>
    decreases items,
{
    if items.len() == 0 {
        Seq::empty()
    } else {
        let it = items.last();
        let x = match it.kind {
            SYamlKind::Str(s) => SValue::Str(s),
            SYamlKind::Mapping(m) => SValue::Object(nested_object(m)),
            _ => SValue::Str(trim(it.text)),
        };
        nested_items(items.drop_last()).push(x)
    }
}

/// `date` and `updated` (in any case) hold dates.
pub open spec fn is_date_key(key: Seq<char>) -> bool {
    str_lowercase(key) == "date"@ || str_lowercase(key) == "updated"@
}

/// The value of a top-level key: a date string as an Org timestamp where it reads as
/// one, other strings as they are, sequences item by item, mappings as objects, and
/// anything else as its YAML text.
pub open spec fn top_value(key: Seq<char>, v: SYaml) -> SValue {
    match v.kind {
        SYamlKind::Str(s) => if is_date_key(key) {
            match spec_iso_to_org_date(s) {
                Some(d) => SValue::Str(d),
                None => SValue::Str(s),
            }
        } else {
            SValue::Str(s)
        },
        SYamlKind::Sequence(items) => SValue::List(item_values(items)),
        SYamlKind::Mapping(m) => SValue::Object(nested_object(m)),
        _ => SValue::Str(trim(v.text)),
    }
}

/// The front matter from the entries of the top-level mapping, in their order; a later
/// entry replaces an earlier one with the same key.
pub open spec fn top_entries(m: Seq<(SYaml, SYaml)>) -> Seq<(Seq<char>, SValue)>
    decreases m.len(),
{
    if m.len() == 0 {
        Seq::empty()
    } else {
        let rest = top_entries(m.drop_last());
        let e = m.last();
        match e.0.kind {
            SYamlKind::Str(key) => insert(rest, key, top_value(key, e.1)),
            _ => rest,
        }
    }
}

/// `iso_to_org_date` takes every date string of the top-level mapping.
pub open spec fn dates_ok(m: Seq<(SYaml, SYaml)>) -> bool
    decreases m.len(),
{
    m.len() == 0 || (dates_ok(m.drop_last()) && match (m.last().0.kind, m.last().1.kind) {
        (SYamlKind::Str(key), SYamlKind::Str(s)) => is_date_key(key) ==> iso_month_ok(s),
        _ => true,
    })
}

/// The front matter a YAML value gives: the entries of a mapping, nothing otherwise.
pub open spec fn yaml_front(v: SYaml) -> Seq<(Seq<char>, SValue)> {
    match v.kind {
        SYamlKind::Mapping(m) => top_entries(m),
        _ => Seq::empty(),
    }
}

pub open spec fn yaml_dates_ok(v: SYaml) -> bool {
    match v.kind {
        SYamlKind::Mapping(m) => dates_ok(m),
        _ => true,
    }
}

fn text_value(text: &String) -> (r: DataValue)
    ensures
        r@ == SValue::Str(trim(text@)),
{
    DataValue::Str(from_chars(&trim_chars(&to_chars(text.as_str()))))
}

fn real_value(text: &String) -> (r: DataValue)
    ensures
        r@ == SValue::Real(trim(text@)),
{
    DataValue::Real(from_chars(&trim_chars(&to_chars(text.as_str()))))
}

fn str_value(s: &String) -> (r: DataValue)
    ensures
        r@ == SValue::Str(s@),
{
    DataValue::Str(from_chars(&to_chars(s.as_str())))
}

/// The values of a nested mapping's sequence.
fn nested_items_of(items: &Vec<YamlValue>) -> (r: Vec<DataValue>)
    ensures
        values_view(r@) == nested_items(yamls_view(items@)),
    decreases items,
{
    proof {
        lemma_yamls_index(items@);
    }
    let ghost iv = yamls_view(items@);
    let mut out: Vec<DataValue> = Vec::new();
    let mut i: usize = 0;
    while i < items.len()
        invariant
            i <= items@.len(),
            iv == yamls_view(items@),
            iv.len() == items@.len(),
            forall|j: int| 0 <= j < items@.len() ==> #[trigger] iv[j] == items@[j]@,
            values_view(out@) == nested_items(iv.subrange(0, i as int)),
        decreases items.len() - i,
    {
        let it = &items[i];
        proof {
            assert(iv.subrange(0, i + 1).drop_last() =~= iv.subrange(0, i as int));
            assert(iv.subrange(0, i + 1).last() == it@);
            assert(decreases_to!(items => items@[i as int]));
        }
        let x = match &it.kind {
            YamlKind::Str(s) => str_value(s),
            YamlKind::Mapping(m) => {
                proof {
                    assert(decreases_to!(items => items@[i as int].kind));
                }
                DataValue::Object(nested_object_of(m))
            },
            _ => text_value(&it.text),
        };
        proof {
            lemma_values_view_push(out@, x);
        }
        out.push(x);
        i += 1;
    }
    assert(iv.subrange(0, iv.len() as int) =~= iv);
    out
}

/// A nested mapping as an object.
fn nested_object_of(m: &Vec<(YamlValue, YamlValue)>) -> (r: Vec<DataEntry>)
    ensures
        entries_view(r@) == nested_object(yaml_pairs_view(m@)),
    decreases m,
{
    proof {
        lemma_yaml_pairs_index(m@);
    }
    let ghost pv = yaml_pairs_view(m@);
    let mut out: Vec<DataEntry> = Vec::new();
    let mut i: usize = 0;
    assert(entries_view(out@) =~= Seq::<(Seq<char>, SValue)>::empty());
    while i < m.len()
        invariant
            i <= m@.len(),
            pv == yaml_pairs_view(m@),
            pv.len() == m@.len(),
            forall|j: int| 0 <= j < m@.len() ==> #[trigger] pv[j] == (m@[j].0@, m@[j].1@),
            entries_view(out@) == nested_object(pv.subrange(0, i as int)),
        decreases m.len() - i,
    {
        let (k, v) = &m[i];
        proof {
            assert(pv.subrange(0, i + 1).drop_last() =~= pv.subrange(0, i as int));
            assert(pv.subrange(0, i + 1).last() == (k@, v@));
            assert(decreases_to!(m => m@[i as int].1));
        }
        match &k.kind {
            YamlKind::Str(key) => {
                let x = nested_value_of(v);
                obj_insert_data(&mut out, &to_chars(key.as_str()), x);
            },
            _ => {},
        }
        i += 1;
    }
    assert(pv.subrange(0, pv.len() as int) =~= pv);
    out
}

/// A value inside a nested mapping.
fn nested_value_of(v: &YamlValue) -> (r: DataValue)
    ensures
        r@ == nested_value(v@),
    decreases v,
{
    match &v.kind {
        YamlKind::Str(s) => str_value(s),
        YamlKind::Mapping(m) => DataValue::Object(nested_object_of(m)),
        YamlKind::Sequence(items) => DataValue::List(nested_items_of(items)),
        YamlKind::Bool(b) => DataValue::Bool(*b),
        YamlKind::Number(n) => match n {
            Some(i) => DataValue::Int(*i),
            None => real_value(&v.text),
        },
        YamlKind::Null => DataValue::Null,
        YamlKind::Tagged => DataValue::Null,
    }
}

/// The items of a top-level sequence.
fn item_values_of(items: &Vec<YamlValue>) -> (r: Vec<DataValue>)
    ensures
        values_view(r@) == item_values(yamls_view(items@)),
{
    proof {
        lemma_yamls_index(items@);
    }
    let ghost iv = yamls_view(items@);
    let mut out: Vec<DataValue> = Vec::new();
    let mut i: usize = 0;
    while i < items.len()
        invariant
            i <= items@.len(),
            iv == yamls_view(items@),
            iv.len() == items@.len(),
            forall|j: int| 0 <= j < items@.len() ==> #[trigger] iv[j] == items@[j]@,
            values_view(out@) == item_values(iv.subrange(0, i as int)),
        decreases items.len() - i,
    {
        let it = &items[i];
        proof {
            assert(iv.subrange(0, i + 1).drop_last() =~= iv.subrange(0, i as int));
            assert(iv.subrange(0, i + 1).last() == it@);
        }
        let x = match &it.kind {
            YamlKind::Str(t) => str_value(t),
            _ => text_value(&it.text),
        };
        proof {
            lemma_values_view_push(out@, x);
        }
        out.push(x);
        i += 1;
    }
    assert(iv.subrange(0, iv.len() as int) =~= iv);
    out
}

/// Whether `key` names a date.
fn date_key(key: &String) -> (r: bool)
    ensures
        r == is_date_key(key@),
{
    let l = lowercase(&to_chars(key.as_str()));
    eq_str(&l, "date") || eq_str(&l, "updated")
}

/// The value of a top-level key.
fn top_value_of(key: &String, v: &YamlValue) -> (r: DataValue)
    requires
        match v@.kind {
            SYamlKind::Str(s) => is_date_key(key@) ==> iso_month_ok(s),
            _ => true,
        },
    ensures
        r@ == top_value(key@, v@),
{
    match &v.kind {
        YamlKind::Str(s) => {
            if date_key(key) {
                match iso_to_org_date(s.as_str()) {
                    Some(d) => DataValue::Str(d),
                    None => str_value(s),
                }
            } else {
                str_value(s)
            }
        },
        YamlKind::Sequence(items) => DataValue::List(item_values_of(items)),
        YamlKind::Mapping(m) => DataValue::Object(nested_object_of(m)),
        _ => text_value(&v.text),
    }
}

/// The front matter from the entries of the top-level mapping.
fn top_entries_of(m: &Vec<(YamlValue, YamlValue)>) -> (r: Vec<DataEntry>)
    requires
        dates_ok(yaml_pairs_view(m@)),
    ensures
        entries_view(r@) == top_entries(yaml_pairs_view(m@)),
{
    proof {
        lemma_yaml_pairs_index(m@);
    }
    let ghost pv = yaml_pairs_view(m@);
    let mut out: Vec<DataEntry> = Vec::new();
    let mut i: usize = 0;
    assert(entries_view(out@) =~= Seq::<(Seq<char>, SValue)>::empty());
    while i < m.len()
        invariant
            i <= m@.len(),
            pv == yaml_pairs_view(m@),
            pv.len() == m@.len(),
            forall|j: int| 0 <= j < m@.len() ==> #[trigger] pv[j] == (m@[j].0@, m@[j].1@),
            dates_ok(pv),
            entries_view(out@) == top_entries(pv.subrange(0, i as int)),
        decreases m.len() - i,
    {
        let (k, v) = &m[i];
        proof {
            assert(pv.subrange(0, i + 1).drop_last() =~= pv.subrange(0, i as int));
            assert(pv.subrange(0, i + 1).last() == (k@, v@));
            lemma_dates_ok_prefix(pv, i + 1);
            assert(dates_ok(pv.subrange(0, i + 1)));
        }
        match &k.kind {
            YamlKind::Str(key) => {
                let x = top_value_of(key, v);
                insert_data(&mut out, key.as_str(), x);
            },
            _ => {},
        }
        i += 1;
    }
    assert(pv.subrange(0, pv.len() as int) =~= pv);
    out
}

proof fn lemma_dates_ok_prefix(m: Seq<(SYaml, SYaml)>, n: int)
    requires
        0 <= n <= m.len(),
        dates_ok(m),
    ensures
        dates_ok(m.subrange(0, n)),
    decreases m.len() - n,
{
    if n < m.len() {
        assert(m.drop_last() =~= m.subrange(0, m.len() - 1));
        lemma_dates_ok_prefix(m.drop_last(), n);
        assert(m.drop_last().subrange(0, n) =~= m.subrange(0, n));
    } else {
        assert(m.subrange(0, n) =~= m);
    }
}

/// The front matter a YAML value gives.
pub fn front_matter_of(v: &YamlValue) -> (r: Vec<DataEntry>)
    requires
        yaml_dates_ok(v@),
    ensures
        entries_view(r@) == yaml_front(v@),
{
    match &v.kind {
        YamlKind::Mapping(m) => top_entries_of(m),
        _ => {
            let r: Vec<DataEntry> = Vec::new();
            assert(entries_view(r@) =~= Seq::<(Seq<char>, SValue)>::empty());
            r
        },
    }
}

// ------------------------------------------------------------------
// The front matter of an input
// ------------------------------------------------------------------

/// The front matter of an MDX input and the body after it: the entries of a YAML
/// mapping between `---` lines, with the rest after trimming; nothing, and the whole
/// input after trimming, where there is no such block or the YAML does not read.
pub open spec fn spec_extract_frontmatter(input: Seq<char>) -> (Seq<(Seq<char>, SValue)>, Seq<char>) {
    let (t, y) = spec_split_frontmatter(input);
    match y {
        None => (Seq::empty(), t),
        Some((yaml, rest)) => match yaml_of(yaml) {
            None => (Seq::empty(), t),
            Some(v) => (yaml_front(v), crate::text::trim_start(rest)),
        },
    }
}

/// `iso_to_org_date` takes every date string of the front matter.
pub open spec fn frontmatter_dates_ok(input: Seq<char>) -> bool {
    match spec_split_frontmatter(input).1 {
        Some((yaml, _)) => match yaml_of(yaml) {
            Some(v) => yaml_dates_ok(v),
            None => true,
        },
        None => true,
    }
}

/// Reads the YAML front matter of an MDX input; `date` and `updated` strings that read
/// as ISO instants become Org timestamps.
pub fn extract_frontmatter(input: &str) -> (r: (Vec<DataEntry>, String))
    requires
        frontmatter_dates_ok(input@),
    ensures
        (entries_view(r.0@), r.1@) == spec_extract_frontmatter(input@),
{
    let split = split_frontmatter(input);
    match split.yaml {
        None => {
            let e: Vec<DataEntry> = Vec::new();
            assert(entries_view(e@) =~= Seq::<(Seq<char>, SValue)>::empty());
            (e, split.trimmed)
        },
        Some((yaml, rest)) => match parse_yaml(yaml.as_str()) {
            None => {
                let e: Vec<DataEntry> = Vec::new();
                assert(entries_view(e@) =~= Seq::<(Seq<char>, SValue)>::empty());
                (e, split.trimmed)
            },
            Some(v) => {
                let fm = front_matter_of(&v);
                let body = from_chars(&crate::text::trim_start_chars(&to_chars(rest.as_str())));
                (fm, body)
            },
        },
    }
}

/// Whether the dates of the front matter are ones `iso_to_org_date` takes.
fn dates_readable(m: &Vec<(YamlValue, YamlValue)>) -> (r: bool)
    ensures
        r == dates_ok(yaml_pairs_view(m@)),
{
    proof {
        lemma_yaml_pairs_index(m@);
    }
    let ghost pv = yaml_pairs_view(m@);
    let mut i: usize = 0;
    while i < m.len()
        invariant
            i <= m@.len(),
            pv == yaml_pairs_view(m@),
            pv.len() == m@.len(),
            forall|j: int| 0 <= j < m@.len() ==> #[trigger] pv[j] == (m@[j].0@, m@[j].1@),
            dates_ok(pv.subrange(0, i as int)),
        decreases m.len() - i,
    {
        let (k, v) = &m[i];
        proof {
            assert(pv.subrange(0, i + 1).drop_last() =~= pv.subrange(0, i as int));
            assert(pv.subrange(0, i + 1).last() == (k@, v@));
        }
        match (&k.kind, &v.kind) {
            (YamlKind::Str(key), YamlKind::Str(s)) => {
                if date_key(key) && !iso_date_month_ok(s.as_str()) {
                    proof {
                        lemma_dates_not_ok(pv, i as int);
                    }
                    return false;
                }
            },
            _ => {},
        }
        i += 1;
    }
    assert(pv.subrange(0, pv.len() as int) =~= pv);
    true
}

proof fn lemma_dates_not_ok(m: Seq<(SYaml, SYaml)>, i: int)
    requires
        0 <= i < m.len(),
        !dates_ok(m.subrange(0, i + 1)),
    ensures
        !dates_ok(m),
    decreases m.len() - i,
{
    if dates_ok(m) {
        lemma_dates_ok_prefix(m, i + 1);
    }
}

/// As `extract_frontmatter`; `None` exactly where a date of the front matter is one
/// `iso_to_org_date` does not take (its local month is out of range).
pub fn try_extract_frontmatter(input: &str) -> (r: Option<(Vec<DataEntry>, String)>)
    ensures
        match r {
            Some((fm, body)) => frontmatter_dates_ok(input@) && (entries_view(fm@), body@)
                == spec_extract_frontmatter(input@),
            None => !frontmatter_dates_ok(input@),
        },
{
    let split = split_frontmatter(input);
    if let Some((yaml, _)) = &split.yaml {
        if let Some(v) = parse_yaml(yaml.as_str()) {
            if let YamlKind::Mapping(m) = &v.kind {
                if !dates_readable(m) {
                    return None;
                }
            }
        }
    }
    Some(extract_frontmatter(input))
}

} // verus!
