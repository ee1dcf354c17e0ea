//! The document keywords of an Org file (`#+TITLE:`, `#+OPTIONS:`, `#+LINK:` ...) and
//! what they contribute to the front matter and the link abbreviations.
use vstd::prelude::*;
use crate::ast::node::{
    copy_value, entries_view, find_key, insert, insert_data, lookup, values_view, DataEntry,
    DataValue, SValue, lemma_entries_view_index, lemma_values_view_push,
};
use crate::parser::inline::{alias_insert, LinkAliases};
use crate::text::{
    eq_str, find_char, find_char_at, from_chars, slice, split, split_chars, split_whitespace,
    to_chars, trim, trim_chars, views, word_end, words,
};
use crate::util::{kw_chars, org_date_to_iso_chars, spec_kw, spec_org_date_to_iso};

verus! {

// ------------------------------------------------------------------
// Objects with sorted keys
// ------------------------------------------------------------------

/// `a` comes before `b` in code point order.
pub open spec fn key_lt(a: Seq<char>, b: Seq<char>) -> bool
    decreases a.len(),
{
    if a.len() == 0 {
        b.len() > 0
    } else if b.len() == 0 {
        false
    } else if a[0] != b[0] {
        (a[0] as u32) < (b[0] as u32)
    } else {
        key_lt(a.drop_first(), b.drop_first())
    }
}

/// An object with its keys kept in order: `k` mapped to `v`, replacing its entry, or
/// inserted before the first larger key.
pub open spec fn obj_insert(m: Seq<(Seq<char>, SValue)>, k: Seq<char>, v: SValue) -> Seq<(Seq<char>, SValue)>
    decreases m.len(),
{
    if m.len() == 0 {
        seq![(k, v)]
    } else if m[0].0 == k {
        m.update(0, (k, v))
    } else if key_lt(k, m[0].0) {
        seq![(k, v)] + m
    } else {
        seq![m[0]] + obj_insert(m.drop_first(), k, v)
    }
}

pub(crate) fn less_key(a: &[char], b: &[char]) -> (r: bool)
    ensures
        r == key_lt(a@, b@),
{
    let mut i: usize = 0;
    assert(a@.subrange(0, a@.len() as int) =~= a@);
    assert(b@.subrange(0, b@.len() as int) =~= b@);
    while i < a.len() && i < b.len() && a[i] == b[i]
        invariant
            i <= a@.len(),
            i <= b@.len(),
            key_lt(a@, b@) == key_lt(a@.subrange(i as int, a@.len() as int), b@.subrange(i as int, b@.len() as int)),
        decreases a.len() - i,
    {
        assert(a@.subrange(i as int, a@.len() as int).drop_first() =~= a@.subrange(i + 1, a@.len() as int));
        assert(b@.subrange(i as int, b@.len() as int).drop_first() =~= b@.subrange(i + 1, b@.len() as int));
        i += 1;
    }
    if i == a.len() {
        i < b.len()
    } else if i == b.len() {
        false
    } else {
        (a[i] as u32) < (b[i] as u32)
    }
}

proof fn lemma_obj_insert_at(m: Seq<(Seq<char>, SValue)>, k: Seq<char>, v: SValue, i: int)
    requires
        0 <= i <= m.len(),
        forall|j: int| 0 <= j < i ==> m[j].0 != k && !key_lt(k, m[j].0),
    ensures
        i < m.len() && m[i].0 == k ==> obj_insert(m, k, v) == m.update(i, (k, v)),
        i < m.len() && m[i].0 != k && key_lt(k, m[i].0) ==> obj_insert(m, k, v) == m.insert(i, (k, v)),
        i == m.len() ==> obj_insert(m, k, v) == m.push((k, v)),
    decreases i,
{
    if i > 0 {
        lemma_obj_insert_at(m.drop_first(), k, v, i - 1);
        if i < m.len() {
            assert(seq![m[0]] + m.drop_first().update(i - 1, (k, v)) =~= m.update(i, (k, v)));
        }
        assert(seq![m[0]] + m.drop_first().insert(i - 1, (k, v)) =~= m.insert(i, (k, v)));
        assert(seq![m[0]] + m.drop_first().push((k, v)) =~= m.push((k, v)));
    } else {
        assert(seq![(k, v)] + m =~= m.insert(0, (k, v)));
        if m.len() == 0 {
            assert(seq![(k, v)] =~= m.push((k, v)));
        }
    }
}

/// Maps `k` to `v` in an object whose keys are kept in order.
pub fn obj_insert_data(m: &mut Vec<DataEntry>, k: &[char], v: DataValue)
    ensures
        entries_view(final(m)@) == obj_insert(entries_view(old(m)@), k@, v@),
{
    let ghost d = entries_view(m@);
    proof {
        lemma_entries_view_index(m@);
    }
    let mut i: usize = 0;
    while i < m.len()
        invariant
            i <= m@.len(),
            d == entries_view(m@),
            m@ == old(m)@,
            d.len() == m@.len(),
            forall|j: int| 0 <= j < m@.len() ==> #[trigger] d[j] == (m@[j].key@, m@[j].value@),
            forall|j: int| 0 <= j < i ==> d[j].0 != k@ && !key_lt(k@, d[j].0),
        decreases m.len() - i,
    {
        let key = to_chars(m[i].key.as_str());
        if crate::text::eq(&key, k) {
            proof {
                lemma_obj_insert_at(d, k@, v@, i as int);
            }
            m.set(i, DataEntry { key: from_chars(k), value: v });
            proof {
                lemma_entries_view_index(m@);
                assert(entries_view(m@) =~= d.update(i as int, (k@, v@)));
            }
            return;
        }
        if less_key(k, &key) {
            proof {
                lemma_obj_insert_at(d, k@, v@, i as int);
            }
            m.insert(i, DataEntry { key: from_chars(k), value: v });
            proof {
                lemma_entries_view_index(m@);
                assert(entries_view(m@) =~= d.insert(i as int, (k@, v@)));
            }
            return;
        }
        i += 1;
    }
    proof {
        lemma_obj_insert_at(d, k@, v@, i as int);
    }
    m.push(DataEntry { key: from_chars(k), value: v });
    assert(m@.drop_last() =~= old(m)@);
}

// ------------------------------------------------------------------
// `#+OPTIONS:` and `#+TAGS:`
// ------------------------------------------------------------------

/// The value of an option: `nil` is false, `t` is true, anything else a string.
pub open spec fn opt_value(v: Seq<char>) -> SValue {
    if v == "nil"@ {
        SValue::Bool(false)
    } else if v == "t"@ {
        SValue::Bool(true)
    } else {
        SValue::Str(v)
    }
}

/// The name an option is kept under: `^` is `superscript`.
pub open spec fn opt_key(k: Seq<char>) -> Seq<char> {
    if k == "^"@ {
        "superscript"@
    } else {
        k
    }
}

/// `opts` with the `key:value` tokens of `toks[i..]` added; a `key:` token takes the
/// next token as its value.
pub open spec fn options_from(opts: Seq<(Seq<char>, SValue)>, toks: Seq<Seq<char>>, i: int) -> Seq<(Seq<char>, SValue)>
    decreases toks.len() - i,
{
    if i < 0 || i >= toks.len() {
        opts
    } else {
        match find_char(toks[i], ':') {
            Some(c) => {
                let key = opt_key(toks[i].subrange(0, c));
                let val = toks[i].subrange(c + 1, toks[i].len() as int);
                if val.len() == 0 && i + 1 < toks.len() {
                    options_from(obj_insert(opts, key, opt_value(toks[i + 1])), toks, i + 2)
                } else {
                    options_from(obj_insert(opts, key, opt_value(val)), toks, i + 1)
                }
            },
            None => options_from(opts, toks, i + 1),
        }
    }
}

/// The tags of a `#+TAGS:` value: its comma-separated parts, trimmed, without empty ones.
pub open spec fn tag_values(parts: Seq<Seq<char>>) -> Seq<SValue>
    decreases parts.len(),
{
    if parts.len() == 0 {
        Seq::empty()
    } else {
        let rest = tag_values(parts.drop_last());
        let t = trim(parts[parts.len() - 1]);
        if t.len() == 0 {
            rest
        } else {
            rest.push(SValue::Str(t))
        }
    }
}

fn str_value(s: &[char]) -> (r: DataValue)
    ensures
        r@ == SValue::Str(s@),
{
    DataValue::Str(from_chars(s))
}

fn opt_value_of(v: &[char]) -> (r: DataValue)
    ensures
        r@ == opt_value(v@),
{
    if eq_str(v, "nil") {
        DataValue::Bool(false)
    } else if eq_str(v, "t") {
        DataValue::Bool(true)
    } else {
        str_value(v)
    }
}

fn opt_key_of(k: &[char]) -> (r: Vec<char>)
    ensures
        r@ == opt_key(k@),
{
    if eq_str(k, "^") {
        to_chars("superscript")
    } else {
        slice(k, 0, k.len())
    }
}

/// Adds the options of a `#+OPTIONS:` value to `opts`.
fn apply_options(opts: &mut Vec<DataEntry>, v: &[char])
    ensures
        entries_view(final(opts)@) == options_from(entries_view(old(opts)@), words(v@), 0),
{
    let toks = split_whitespace(v);
    let ghost tv = views(toks@);
    let mut i: usize = 0;
    while i < toks.len()
        invariant
            tv == views(toks@),
            tv == words(v@),
            tv.len() == toks@.len(),
            forall|j: int| 0 <= j < toks@.len() ==> #[trigger] tv[j] == toks@[j]@,
            options_from(entries_view(old(opts)@), tv, 0) == options_from(entries_view(opts@), tv, i as int),
        decreases toks.len() - i,
    {
        let t = &toks[i];
        match find_char_at(t, ':', 0) {
            Some(c) => {
                assert(c < t.len());
                let key = opt_key_of(&slice(t, 0, c));
                let val = slice(t, c + 1, t.len());
                if val.len() == 0 && i + 1 < toks.len() {
                    obj_insert_data(opts, &key, opt_value_of(&toks[i + 1]));
                    i += 2;
                } else {
                    obj_insert_data(opts, &key, opt_value_of(&val));
                    i += 1;
                }
            },
            None => {
                i += 1;
            },
        }
    }
}

/// The tags of a `#+TAGS:` value.
fn tag_list(v: &[char]) -> (r: Vec<DataValue>)
    ensures
        values_view(r@) == tag_values(split(v@, ',')),
{
    let parts = split_chars(v, ',');
    let ghost pv = views(parts@);
    let mut out: Vec<DataValue> = Vec::new();
    let mut i: usize = 0;
    while i < parts.len()
        invariant
            pv == views(parts@),
            pv == split(v@, ','),
            pv.len() == parts@.len(),
            forall|j: int| 0 <= j < parts@.len() ==> #[trigger] pv[j] == parts@[j]@,
            i <= parts@.len(),
            values_view(out@) == tag_values(pv.take(i as int)),
        decreases parts.len() - i,
    {
        assert(pv.take(i + 1).drop_last() =~= pv.take(i as int));
        let t = trim_chars(&parts[i]);
        if t.len() > 0 {
            let x = str_value(&t);
            proof {
                lemma_values_view_push(out@, x);
            }
            out.push(x);
        }
        i += 1;
    }
    assert(pv.take(parts@.len() as int) =~= pv);
    out
}


// ------------------------------------------------------------------
// One keyword line
// ------------------------------------------------------------------

/// The front matter with `key` mapped to the string `v`.
pub open spec fn set_str(fm: Seq<(Seq<char>, SValue)>, key: Seq<char>, v: Seq<char>) -> Seq<(Seq<char>, SValue)> {
    insert(fm, key, SValue::Str(v))
}

/// The front matter after `#+OPTIONS: v`: the `org` object (made with an empty
/// `options` object when missing) with the options of `v` added to `options`.
pub open spec fn with_options(fm: Seq<(Seq<char>, SValue)>, v: Seq<char>) -> Seq<(Seq<char>, SValue)> {
    let fm1 = match lookup(fm, "org"@) {
        Some(_) => fm,
        None => insert(fm, "org"@, SValue::Object(seq![("options"@, SValue::Object(Seq::empty()))])),
    };
    match lookup(fm1, "org"@) {
        Some(SValue::Object(om)) => match lookup(om, "options"@) {
            Some(SValue::Object(opts)) => insert(
                fm1,
                "org"@,
                SValue::Object(obj_insert(om, "options"@, SValue::Object(options_from(opts, words(v), 0)))),
            ),
            _ => fm1,
        },
        _ => fm1,
    }
}

/// The front matter after `#+ALIAS: v`: `v` appended to the `alias` list, which is made
/// when missing.
pub open spec fn with_alias(fm: Seq<(Seq<char>, SValue)>, v: Seq<char>) -> Seq<(Seq<char>, SValue)> {
    match lookup(fm, "alias"@) {
        Some(SValue::List(l)) => insert(fm, "alias"@, SValue::List(l.push(SValue::Str(v)))),
        Some(_) => fm,
        None => insert(fm, "alias"@, SValue::List(seq![SValue::Str(v)])),
    }
}

/// The abbreviations after `#+LINK: v`: the first word names the URL that follows it.
pub open spec fn with_link(al: Seq<(Seq<char>, Seq<char>)>, v: Seq<char>) -> Seq<(Seq<char>, Seq<char>)> {
    let sp = word_end(v, 0);
    if sp < v.len() {
        alias_insert(al, trim(v.subrange(0, sp)), trim(v.subrange(sp, v.len() as int)))
    } else {
        al
    }
}

/// What one line contributes: the front matter and link abbreviations after it.
pub open spec fn spec_directive(
    fm: Seq<(Seq<char>, SValue)>,
    al: Seq<(Seq<char>, Seq<char>)>,
    line: Seq<char>,
) -> (Seq<(Seq<char>, SValue)>, Seq<(Seq<char>, Seq<char>)>) {
    let t = trim(line);
    if spec_kw(t, "TITLE"@) is Some {
        (set_str(fm, "title"@, spec_kw(t, "TITLE"@)->0), al)
    } else if spec_kw(t, "DATE"@) is Some {
        (match spec_org_date_to_iso(spec_kw(t, "DATE"@)->0) {
            Some(iso) => set_str(fm, "date"@, iso),
            None => fm,
        }, al)
    } else if spec_kw(t, "UPDATED"@) is Some {
        (match spec_org_date_to_iso(spec_kw(t, "UPDATED"@)->0) {
            Some(iso) => set_str(fm, "updated"@, iso),
            None => fm,
        }, al)
    } else if spec_kw(t, "ABBRLINK"@) is Some {
        (set_str(fm, "abbrlink"@, spec_kw(t, "ABBRLINK"@)->0), al)
    } else if spec_kw(t, "TAGS"@) is Some {
        (insert(fm, "tags"@, SValue::List(tag_values(split(spec_kw(t, "TAGS"@)->0, ',')))), al)
    } else if spec_kw(t, "CATEGORY"@) is Some {
        (insert(fm, "category"@, SValue::List(seq![SValue::Str(spec_kw(t, "CATEGORY"@)->0)])), al)
    } else if spec_kw(t, "AUTHOR"@) is Some {
        (set_str(fm, "author"@, spec_kw(t, "AUTHOR"@)->0), al)
    } else if spec_kw(t, "EMAIL"@) is Some {
        (set_str(fm, "email"@, spec_kw(t, "EMAIL"@)->0), al)
    } else if spec_kw(t, "ALIAS"@) is Some {
        (with_alias(fm, spec_kw(t, "ALIAS"@)->0), al)
    } else if spec_kw(t, "LANGUAGE"@) is Some {
        (set_str(fm, "language"@, spec_kw(t, "LANGUAGE"@)->0), al)
    } else if spec_kw(t, "ATTR_HTML"@) is Some {
        (set_str(fm, "attr_html"@, spec_kw(t, "ATTR_HTML"@)->0), al)
    } else if spec_kw(t, "OPTIONS"@) is Some {
        (with_options(fm, spec_kw(t, "OPTIONS"@)->0), al)
    } else if spec_kw(t, "LINK"@) is Some {
        (fm, with_link(al, spec_kw(t, "LINK"@)->0))
    } else {
        (fm, al)
    }
}

/// The front matter and link abbreviations after reading all `lines` in order, from
/// `fm` and `al`.
pub open spec fn spec_directives(
    fm: Seq<(Seq<char>, SValue)>,
    al: Seq<(Seq<char>, Seq<char>)>,
    lines: Seq<Seq<char>>,
) -> (Seq<(Seq<char>, SValue)>, Seq<(Seq<char>, Seq<char>)>)
    decreases lines.len(),
{
    if lines.len() == 0 {
        (fm, al)
    } else {
        let (f, a) = spec_directives(fm, al, lines.drop_last());
        spec_directive(f, a, lines[lines.len() - 1])
    }
}

fn keyword(t: &[char], k: &str) -> (r: Option<Vec<char>>)
    ensures
        match r {
            Some(v) => spec_kw(t@, k@) == Some(v@),
            None => spec_kw(t@, k@) is None,
        },
{
    kw_chars(t, &to_chars(k))
}

fn set_string(fm: &mut Vec<DataEntry>, key: &str, v: &[char])
    ensures
        entries_view(final(fm)@) == set_str(entries_view(old(fm)@), key@, v@),
{
    insert_data(fm, key, str_value(v));
}

fn add_options(fm: &mut Vec<DataEntry>, v: &[char])
    ensures
        entries_view(final(fm)@) == with_options(entries_view(old(fm)@), v@),
{
    if find_key(fm, "org").is_none() {
        let mut om: Vec<DataEntry> = Vec::new();
        om.push(DataEntry { key: from_chars(&to_chars("options")), value: DataValue::Object(Vec::new()) });
        proof {
            reveal_with_fuel(entries_view, 2);
            assert(om@.drop_last() =~= Seq::<DataEntry>::empty());
            assert(entries_view(Seq::<DataEntry>::empty()) =~= Seq::<(Seq<char>, SValue)>::empty());
            assert(entries_view(om@) =~= seq![("options"@, SValue::Object(Seq::empty()))]);
        }
        insert_data(fm, "org", DataValue::Object(om));
    }
    proof {
        lemma_entries_view_index(fm@);
    }
    match find_key(fm, "org") {
        Some(i) => {
            let org = copy_value(&fm[i].value);
            match org {
                DataValue::Object(om) => {
                    proof {
                        lemma_entries_view_index(om@);
                    }
                    match find_key(&om, "options") {
                        Some(j) => {
                            let o = copy_value(&om[j].value);
                            match o {
                                DataValue::Object(opts) => {
                                    let mut opts2 = opts;
                                    apply_options(&mut opts2, v);
                                    let mut om2 = om;
                                    obj_insert_data(&mut om2, &to_chars("options"), DataValue::Object(opts2));
                                    insert_data(fm, "org", DataValue::Object(om2));
                                },
                                _ => {},
                            }
                        },
                        None => {},
                    }
                },
                _ => {},
            }
        },
        None => {},
    }
}

fn add_alias(fm: &mut Vec<DataEntry>, v: &[char])
    ensures
        entries_view(final(fm)@) == with_alias(entries_view(old(fm)@), v@),
{
    proof {
        lemma_entries_view_index(fm@);
    }
    match find_key(fm, "alias") {
        Some(i) => {
            let cur = copy_value(&fm[i].value);
            match cur {
                DataValue::List(l) => {
                    let mut l2 = l;
                    let x = str_value(v);
                    proof {
                        lemma_values_view_push(l2@, x);
                    }
                    l2.push(x);
                    insert_data(fm, "alias", DataValue::List(l2));
                },
                _ => {},
            }
        },
        None => {
            let mut l: Vec<DataValue> = Vec::new();
            let x = str_value(v);
            proof {
                lemma_values_view_push(l@, x);
                assert(values_view(Seq::<DataValue>::empty()) =~= Seq::<SValue>::empty());
            }
            l.push(x);
            assert(values_view(l@) =~= seq![SValue::Str(v@)]) by {
                assert(l@ =~= Seq::<DataValue>::empty().push(x));
            }
            insert_data(fm, "alias", DataValue::List(l));
        },
    }
}

fn add_link(al: &mut LinkAliases, v: &[char])
    ensures
        final(al)@ == with_link(old(al)@, v@),
{
    let mut sp: usize = 0;
    proof {
        crate::text::lemma_word_end(v@, 0);
    }
    while sp < v.len() && !crate::text::is_whitespace(v[sp])
        invariant
            sp <= v@.len(),
            word_end(v@, 0) == word_end(v@, sp as int),
        decreases v.len() - sp,
    {
        sp += 1;
    }
    if sp < v.len() {
        let name = trim_chars(&slice(v, 0, sp));
        let url = trim_chars(&slice(v, sp, v.len()));
        al.insert(&name, &url);
    }
}

/// Applies one keyword line to the front matter and the link abbreviations.
pub fn apply_directive(fm: &mut Vec<DataEntry>, al: &mut LinkAliases, line: &[char])
    ensures
        (entries_view(final(fm)@), final(al)@) == spec_directive(entries_view(old(fm)@), old(al)@, line@),
{
    let t = trim_chars(line);
    if let Some(v) = keyword(&t, "TITLE") {
        set_string(fm, "title", &v);
    } else if let Some(v) = keyword(&t, "DATE") {
        if let Some(iso) = org_date_to_iso_chars(&v) {
            set_string(fm, "date", &iso);
        }
    } else if let Some(v) = keyword(&t, "UPDATED") {
        if let Some(iso) = org_date_to_iso_chars(&v) {
            set_string(fm, "updated", &iso);
        }
    } else if let Some(v) = keyword(&t, "ABBRLINK") {
        set_string(fm, "abbrlink", &v);
    } else if let Some(v) = keyword(&t, "TAGS") {
        let items = tag_list(&v);
        insert_data(fm, "tags", DataValue::List(items));
    } else if let Some(v) = keyword(&t, "CATEGORY") {
        let mut l: Vec<DataValue> = Vec::new();
        let x = str_value(&v);
        proof {
            lemma_values_view_push(l@, x);
            assert(values_view(Seq::<DataValue>::empty()) =~= Seq::<SValue>::empty());
        }
        l.push(x);
        assert(values_view(l@) =~= seq![SValue::Str(v@)]) by {
            assert(l@ =~= Seq::<DataValue>::empty().push(x));
        }
        insert_data(fm, "category", DataValue::List(l));
    } else if let Some(v) = keyword(&t, "AUTHOR") {
        set_string(fm, "author", &v);
    } else if let Some(v) = keyword(&t, "EMAIL") {
        set_string(fm, "email", &v);
    } else if let Some(v) = keyword(&t, "ALIAS") {
        add_alias(fm, &v);
    } else if let Some(v) = keyword(&t, "LANGUAGE") {
        set_string(fm, "language", &v);
    } else if let Some(v) = keyword(&t, "ATTR_HTML") {
        set_string(fm, "attr_html", &v);
    } else if let Some(v) = keyword(&t, "OPTIONS") {
        add_options(fm, &v);
    } else if let Some(v) = keyword(&t, "LINK") {
        add_link(al, &v);
    }
}

} // verus!
