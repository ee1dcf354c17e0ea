//! Conversion of HTML fragments to JSX and back, through one syntax tree of
//! elements, text and comments.
use vstd::prelude::*;
use crate::text::{
    ascii_lower, ascii_upper, find_char, has_prefix, has_suffix, is_ascii_upper, join, push_all,
    push_str, slice, split, split_chars, str_lowercase, to_ascii_lower, to_ascii_upper, to_chars,
    trim, trim_chars, views, find_char_at, starts_with_str, ends_with_str, eq_str, lowercase,
    lemma_views_push, join_str,
};
use crate::util::{strip_leading, strip_leading_chars, strip_trailing, strip_trailing_chars};
use crate::text::{find_char_from, find_from, is_ascii_alpha, is_ascii_ws, lemma_find_char_from, lemma_find_from, lemma_ws_run_end, occurs_at, ws_run_end};
use crate::parser::inline::{brace_end, lemma_brace_end};
use crate::text::{find_at, from_chars, is_ascii_whitespace, matches_at, ws_end};

verus! {

// ------------------------------------------------------------------
// Style values
// ------------------------------------------------------------------

/// `kebab-case` to `camelCase` from index `i`, `upper` telling whether a `-` came just before.
pub open spec fn kebab_from(s: Seq<char>, i: int, upper: bool) -> Seq<char>
    decreases s.len() - i,
{
    if i < 0 || i >= s.len() {
        Seq::empty()
    } else if s[i] == '-' {
        kebab_from(s, i + 1, true)
    } else if upper {
        seq![ascii_upper(s[i])] + kebab_from(s, i + 1, false)
    } else {
        seq![s[i]] + kebab_from(s, i + 1, false)
    }
}

/// A CSS property name in JSX form: each `-` dropped and the letter after it upper-cased.
pub open spec fn spec_kebab_to_camel(s: Seq<char>) -> Seq<char> {
    kebab_from(s, 0, false)
}

/// What `camel_to_kebab` makes of one character.
pub open spec fn kebab_char(c: char) -> Seq<char> {
    if is_ascii_upper(c) {
        seq!['-', ascii_lower(c)]
    } else {
        seq![c]
    }
}

/// A JSX property name in CSS form: each ASCII capital becomes `-` and its lower case.
pub open spec fn spec_camel_to_kebab(s: Seq<char>) -> Seq<char>
    decreases s.len(),
{
    if s.len() == 0 {
        Seq::empty()
    } else {
        spec_camel_to_kebab(s.drop_last()) + kebab_char(s[s.len() - 1])
    }
}

proof fn lemma_kebab_from_shift(p: Seq<char>, r: Seq<char>, j: int, upper: bool)
    requires
        0 <= j <= r.len(),
    ensures
        kebab_from(p + r, p.len() + j, upper) == kebab_from(r, j, upper),
    decreases r.len() - j,
{
    if j < r.len() {
        assert((p + r)[p.len() + j] == r[j]);
        lemma_kebab_from_shift(p, r, j + 1, true);
        lemma_kebab_from_shift(p, r, j + 1, false);
    }
}

proof fn lemma_camel_to_kebab_cons(c: char, s: Seq<char>)
    ensures
        spec_camel_to_kebab(seq![c] + s) == kebab_char(c) + spec_camel_to_kebab(s),
    decreases s.len(),
{
    if s.len() > 0 {
        lemma_camel_to_kebab_cons(c, s.drop_last());
        assert((seq![c] + s).drop_last() =~= seq![c] + s.drop_last());
        assert((seq![c] + s)[s.len() as int] == s[s.len() - 1]);
        assert(spec_camel_to_kebab(seq![c] + s) == spec_camel_to_kebab(seq![c] + s.drop_last())
            + kebab_char(s[s.len() - 1]));
        assert(spec_camel_to_kebab(s) == spec_camel_to_kebab(s.drop_last()) + kebab_char(s[s.len() - 1]));
        assert((kebab_char(c) + spec_camel_to_kebab(s.drop_last())) + kebab_char(s[s.len() - 1])
            =~= kebab_char(c) + (spec_camel_to_kebab(s.drop_last()) + kebab_char(s[s.len() - 1])));
    } else {
        assert(seq![c] + s =~= seq![c]);
        assert(seq![c].drop_last() =~= Seq::<char>::empty());
        assert(kebab_char(c) + Seq::<char>::empty() =~= kebab_char(c));
        assert(spec_camel_to_kebab(Seq::<char>::empty()) == Seq::<char>::empty());
        assert(Seq::<char>::empty() + kebab_char(c) =~= kebab_char(c));
        assert(spec_camel_to_kebab(seq![c]) == spec_camel_to_kebab(Seq::<char>::empty()) + kebab_char(c));
    }
}

/// The two style-name conversions undo each other: a name without `-` turned into
/// CSS form and back is the name it was.
pub proof fn law_style_name_round_trip(s: Seq<char>)
    requires
        forall|i: int| 0 <= i < s.len() ==> s[i] != '-',
    ensures
        spec_kebab_to_camel(spec_camel_to_kebab(s)) == s,
    decreases s.len(),
{
    if s.len() > 0 {
        let c = s[0];
        let rest = s.drop_first();
        assert(s =~= seq![c] + rest);
        law_style_name_round_trip(rest);
        lemma_camel_to_kebab_cons(c, rest);
        let kc = kebab_char(c);
        let t = kc + spec_camel_to_kebab(rest);
        lemma_kebab_from_shift(kc, spec_camel_to_kebab(rest), 0, false);
        if is_ascii_upper(c) {
            assert(t[0] == '-');
            assert(t[1] == ascii_lower(c));
            assert(ascii_upper(ascii_lower(c)) == c);
            assert(kebab_from(t, 0, false) == kebab_from(t, 1, true));
            assert(kebab_from(t, 1, true) == seq![c] + kebab_from(t, 2, false));
        } else {
            assert(t[0] == c);
            assert(kebab_from(t, 0, false) == seq![c] + kebab_from(t, 1, false));
        }
    } else {
        assert(spec_camel_to_kebab(s) =~= Seq::<char>::empty());
    }
}

fn kebab_to_camel(s: &[char]) -> (r: Vec<char>)
    ensures
        r@ == spec_kebab_to_camel(s@),
{
    let mut out: Vec<char> = Vec::new();
    let mut upper = false;
    let mut i: usize = 0;
    while i < s.len()
        invariant
            i <= s@.len(),
            out@ + kebab_from(s@, i as int, upper) == spec_kebab_to_camel(s@),
        decreases s.len() - i,
    {
        let c = s[i];
        let ghost before = out@;
        if c == '-' {
            upper = true;
        } else if upper {
            out.push(to_ascii_upper(c));
            upper = false;
            assert(before + (seq![ascii_upper(c)] + kebab_from(s@, i + 1, false)) =~= out@ + kebab_from(s@, i + 1, false));
        } else {
            out.push(c);
            assert(before + (seq![c] + kebab_from(s@, i + 1, false)) =~= out@ + kebab_from(s@, i + 1, false));
        }
        i += 1;
    }
    assert(out@ + kebab_from(s@, i as int, upper) =~= out@);
    out
}

fn camel_to_kebab(s: &[char]) -> (r: Vec<char>)
    ensures
        r@ == spec_camel_to_kebab(s@),
{
    let mut out: Vec<char> = Vec::new();
    let mut i: usize = 0;
    while i < s.len()
        invariant
            i <= s@.len(),
            out@ == spec_camel_to_kebab(s@.take(i as int)),
        decreases s.len() - i,
    {
        let c = s[i];
        let ghost before = out@;
        if 'A' <= c && c <= 'Z' {
            out.push('-');
            out.push(to_ascii_lower(c));
        } else {
            out.push(c);
        }
        proof {
            let nxt = s@.take(i + 1);
            assert(nxt.drop_last() =~= s@.take(i as int));
            assert(nxt[nxt.len() - 1] == c);
            assert(out@ =~= before + kebab_char(c));
        }
        i += 1;
    }
    assert(s@.take(s@.len() as int) =~= s@);
    out
}

/// One `key: value` declaration of a CSS style, in JSX form, when it has a `:`.
pub open spec fn jsx_style_prop(p: Seq<char>) -> Option<Seq<char>> {
    match find_char(p, ':') {
        Some(k) => Some(
            spec_kebab_to_camel(trim(p.subrange(0, k))) + ": '"@ + trim(p.subrange(k + 1, p.len() as int))
                + "'"@,
        ),
        None => None,
    }
}

/// The JSX form of each non-blank declaration of `parts` that has a `:`.
pub open spec fn jsx_style_props(parts: Seq<Seq<char>>) -> Seq<Seq<char>>
    decreases parts.len(),
{
    if parts.len() == 0 {
        Seq::empty()
    } else {
        let rest = jsx_style_props(parts.drop_last());
        let p = trim(parts[parts.len() - 1]);
        if p.len() == 0 {
            rest
        } else {
            match jsx_style_prop(p) {
                Some(d) => rest.push(d),
                None => rest,
            }
        }
    }
}

/// A CSS style string as a JSX style object: `{{key: 'value', ...}}`, or nothing.
pub open spec fn spec_style_to_jsx(value: Seq<char>) -> Seq<char> {
    if value.len() == 0 {
        Seq::empty()
    } else {
        let props = jsx_style_props(split(value, ';'));
        if props.len() == 0 {
            Seq::empty()
        } else {
            "{{"@ + join(props, ", "@) + "}}"@
        }
    }
}

/// A value with its single and then double quotes stripped from both ends.
pub open spec fn unquote(v: Seq<char>) -> Seq<char> {
    strip_trailing(strip_leading(strip_trailing(strip_leading(v, '\''), '\''), '"'), '"')
}

/// One `key: 'value'` property of a JSX style object, in CSS form, when it has a `:`.
pub open spec fn html_style_prop(p: Seq<char>) -> Option<Seq<char>> {
    match find_char(p, ':') {
        Some(k) => Some(
            spec_camel_to_kebab(trim(p.subrange(0, k))) + ": "@ + unquote(trim(p.subrange(k + 1, p.len() as int))),
        ),
        None => None,
    }
}

/// The CSS form of each property of `parts` that has a `:`.
pub open spec fn html_style_props(parts: Seq<Seq<char>>) -> Seq<Seq<char>>
    decreases parts.len(),
{
    if parts.len() == 0 {
        Seq::empty()
    } else {
        let rest = html_style_props(parts.drop_last());
        match html_style_prop(parts[parts.len() - 1]) {
            Some(d) => rest.push(d),
            None => rest,
        }
    }
}

/// A JSX style object `{{...}}` as a CSS style string; any other value trimmed.
pub open spec fn spec_style_to_html(value: Seq<char>) -> Seq<char> {
    let inner = trim(value);
    if has_prefix(inner, "{{"@) && has_suffix(inner, "}}"@) {
        join(html_style_props(split(inner.subrange(2, inner.len() - 2, ), ',')), "; "@)
    } else {
        inner
    }
}

fn style_prop_jsx(p: &[char]) -> (r: Option<Vec<char>>)
    ensures
        match r {
            Some(d) => jsx_style_prop(p@) == Some(d@),
            None => jsx_style_prop(p@) is None,
        },
{
    match find_char_at(p, ':', 0) {
        Some(k) => {
            assert(k < p.len());
            let key = trim_chars(&slice(p, 0, k));
            let val = trim_chars(&slice(p, k + 1, p.len()));
            let mut out = kebab_to_camel(&key);
            push_str(&mut out, ": '");
            push_all(&mut out, &val);
            push_str(&mut out, "'");
            Some(out)
        },
        None => None,
    }
}

pub(crate) fn convert_style_to_jsx(value: &[char]) -> (r: Vec<char>)
    ensures
        r@ == spec_style_to_jsx(value@),
{
    if value.len() == 0 {
        return Vec::new();
    }
    let parts = split_chars(value, ';');
    let mut props: Vec<Vec<char>> = Vec::new();
    let mut i: usize = 0;
    while i < parts.len()
        invariant
            i <= parts@.len(),
            views(props@) == jsx_style_props(views(parts@).take(i as int)),
        decreases parts.len() - i,
    {
        proof {
            assert(views(parts@).take(i + 1).drop_last() =~= views(parts@).take(i as int));
        }
        let p = trim_chars(&parts[i]);
        if p.len() > 0 {
            match style_prop_jsx(&p) {
                Some(d) => {
                    proof {
                        lemma_views_push(props@, d);
                    }
                    props.push(d);
                },
                None => {},
            }
        }
        i += 1;
    }
    assert(views(parts@).take(parts@.len() as int) =~= views(parts@));
    if props.len() == 0 {
        return Vec::new();
    }
    let mut out = to_chars("{{");
    let j = join_str(&props, ", ");
    push_all(&mut out, &j);
    push_str(&mut out, "}}");
    out
}

fn unquote_chars(v: &[char]) -> (r: Vec<char>)
    ensures
        r@ == unquote(v@),
{
    let a = strip_leading_chars(v, '\'');
    let b = strip_trailing_chars(&a, '\'');
    let c = strip_leading_chars(&b, '"');
    strip_trailing_chars(&c, '"')
}

fn style_prop_html(p: &[char]) -> (r: Option<Vec<char>>)
    ensures
        match r {
            Some(d) => html_style_prop(p@) == Some(d@),
            None => html_style_prop(p@) is None,
        },
{
    match find_char_at(p, ':', 0) {
        Some(k) => {
            assert(k < p.len());
            let key = trim_chars(&slice(p, 0, k));
            let val = unquote_chars(&trim_chars(&slice(p, k + 1, p.len())));
            let mut out = camel_to_kebab(&key);
            push_str(&mut out, ": ");
            push_all(&mut out, &val);
            Some(out)
        },
        None => None,
    }
}

pub(crate) fn convert_style_to_html(value: &[char]) -> (r: Vec<char>)
    ensures
        r@ == spec_style_to_html(value@),
{
    let inner = trim_chars(value);
    if starts_with_str(&inner, "{{") && ends_with_str(&inner, "}}") {
        proof {
            reveal_strlit("{{");
            reveal_strlit("}}");
            assert(inner@[0] == '{' && inner@[1] == '{') by {
                assert(inner@.subrange(0, 2)[0] == inner@[0]);
                assert(inner@.subrange(0, 2)[1] == inner@[1]);
            }
        }
        assert(inner.len() >= 4) by {
            if inner@.len() < 4 {
                let n = inner@.len() as int;
                assert(inner@.subrange(n - 2, n)[0] == inner@[n - 2]);
                assert(inner@.subrange(n - 2, n)[1] == inner@[n - 1]);
            }
        }
        let obj = slice(&inner, 2, inner.len() - 2);
        let parts = split_chars(&obj, ',');
        let mut props: Vec<Vec<char>> = Vec::new();
        let mut i: usize = 0;
        while i < parts.len()
            invariant
                i <= parts@.len(),
                views(props@) == html_style_props(views(parts@).take(i as int)),
            decreases parts.len() - i,
        {
            proof {
                assert(views(parts@).take(i + 1).drop_last() =~= views(parts@).take(i as int));
            }
            match style_prop_html(&parts[i]) {
                Some(d) => {
                    proof {
                        lemma_views_push(props@, d);
                    }
                    props.push(d);
                },
                None => {},
            }
            i += 1;
        }
        assert(views(parts@).take(parts@.len() as int) =~= views(parts@));
        join_str(&props, "; ")
    } else {
        inner
    }
}


// ------------------------------------------------------------------
// Attribute names and void elements
// ------------------------------------------------------------------

/// HTML attribute names and their JSX (canonical) names.
pub open spec fn attr_table() -> Seq<(Seq<char>, Seq<char>)> {
    seq![
        ("class"@, "className"@),
        ("for"@, "htmlFor"@),
        ("tabindex"@, "tabIndex"@),
        ("onclick"@, "onClick"@),
        ("onchange"@, "onChange"@),
        ("onsubmit"@, "onSubmit"@),
        ("onfocus"@, "onFocus"@),
        ("onblur"@, "onBlur"@),
        ("onkeydown"@, "onKeyDown"@),
        ("onkeyup"@, "onKeyUp"@),
        ("onload"@, "onLoad"@),
        ("onerror"@, "onError"@),
        ("readonly"@, "readOnly"@),
        ("maxlength"@, "maxLength"@),
    ]
}

/// The canonical name of the HTML name `n` in the table `t`.
pub open spec fn canonical_of(t: Seq<(Seq<char>, Seq<char>)>, n: Seq<char>) -> Option<Seq<char>>
    decreases t.len(),
{
    if t.len() == 0 {
        None
    } else if t[0].0 == n {
        Some(t[0].1)
    } else {
        canonical_of(t.drop_first(), n)
    }
}

/// The HTML name of the canonical name `n` in the table `t`.
pub open spec fn html_name_of(t: Seq<(Seq<char>, Seq<char>)>, n: Seq<char>) -> Option<Seq<char>>
    decreases t.len(),
{
    if t.len() == 0 {
        None
    } else if t[0].1 == n {
        Some(t[0].0)
    } else {
        html_name_of(t.drop_first(), n)
    }
}

/// The canonical form of an attribute name read in the given mode: in HTML, a known
/// name (compared in lower case) becomes its JSX name; anything else is kept.
pub open spec fn spec_normalize_attr_name(name: Seq<char>, jsx: bool) -> Seq<char> {
    if jsx {
        name
    } else {
        match canonical_of(attr_table(), str_lowercase(name)) {
            Some(c) => c,
            None => name,
        }
    }
}

/// The HTML name of a canonical attribute name.
pub open spec fn spec_canonical_to_html_attr(name: Seq<char>) -> Seq<char> {
    match html_name_of(attr_table(), name) {
        Some(h) => h,
        None => name,
    }
}

/// The elements that have no content and close themselves.
pub open spec fn is_void_tag(t: Seq<char>) -> bool {
    t == "area"@ || t == "base"@ || t == "br"@ || t == "col"@ || t == "embed"@ || t == "hr"@
        || t == "img"@ || t == "input"@ || t == "link"@ || t == "meta"@ || t == "param"@
        || t == "source"@ || t == "track"@ || t == "wbr"@
}

pub(crate) fn attr_table_vec() -> (r: Vec<(&'static str, &'static str)>)
    ensures
        r@.len() == attr_table().len(),
        forall|i: int| 0 <= i < r@.len() ==> (#[trigger] r@[i].0@, r@[i].1@) == attr_table()[i],
{
    let mut v: Vec<(&'static str, &'static str)> = Vec::new();
    v.push(("class", "className"));
    v.push(("for", "htmlFor"));
    v.push(("tabindex", "tabIndex"));
    v.push(("onclick", "onClick"));
    v.push(("onchange", "onChange"));
    v.push(("onsubmit", "onSubmit"));
    v.push(("onfocus", "onFocus"));
    v.push(("onblur", "onBlur"));
    v.push(("onkeydown", "onKeyDown"));
    v.push(("onkeyup", "onKeyUp"));
    v.push(("onload", "onLoad"));
    v.push(("onerror", "onError"));
    v.push(("readonly", "readOnly"));
    v.push(("maxlength", "maxLength"));
    v
}

fn normalize_attr_name(name: &[char], jsx: bool) -> (r: Vec<char>)
    ensures
        r@ == spec_normalize_attr_name(name@, jsx),
{
    if jsx {
        return slice(name, 0, name.len());
    }
    let lower = lowercase(name);
    let t = attr_table_vec();
    let ghost tab = attr_table();
    let mut i: usize = 0;
    assert(tab.subrange(0, tab.len() as int) =~= tab);
    while i < t.len()
        invariant
            i <= t@.len() == tab.len(),
            tab == attr_table(),
            forall|j: int| 0 <= j < t@.len() ==> (#[trigger] t@[j].0@, t@[j].1@) == tab[j],
            lower@ == str_lowercase(name@),
            !jsx,
            canonical_of(tab, lower@) == canonical_of(tab.subrange(i as int, tab.len() as int), lower@),
        decreases t.len() - i,
    {
        let ghost rest = tab.subrange(i as int, tab.len() as int);
        assert(rest.drop_first() =~= tab.subrange(i + 1, tab.len() as int));
        assert(rest[0] == tab[i as int]);
        let (from, to) = t[i];
        assert((t@[i as int].0@, t@[i as int].1@) == tab[i as int]);
        if eq_str(&lower, from) {
            assert(canonical_of(rest, lower@) == Some(to@));
            assert(canonical_of(attr_table(), str_lowercase(name@)) == Some(to@));
            assert(spec_normalize_attr_name(name@, jsx) == to@);
            return to_chars(to);
        }
        i += 1;
    }
    slice(name, 0, name.len())
}

fn canonical_to_html_attr(name: &[char]) -> (r: Vec<char>)
    ensures
        r@ == spec_canonical_to_html_attr(name@),
{
    let t = attr_table_vec();
    let ghost tab = attr_table();
    let mut i: usize = 0;
    assert(tab.subrange(0, tab.len() as int) =~= tab);
    while i < t.len()
        invariant
            i <= t@.len() == tab.len(),
            tab == attr_table(),
            forall|j: int| 0 <= j < t@.len() ==> (#[trigger] t@[j].0@, t@[j].1@) == tab[j],
            html_name_of(tab, name@) == html_name_of(tab.subrange(i as int, tab.len() as int), name@),
        decreases t.len() - i,
    {
        let ghost rest = tab.subrange(i as int, tab.len() as int);
        assert(rest.drop_first() =~= tab.subrange(i + 1, tab.len() as int));
        assert(rest[0] == tab[i as int]);
        let (from, to) = t[i];
        assert((t@[i as int].0@, t@[i as int].1@) == tab[i as int]);
        if eq_str(name, to) {
            return to_chars(from);
        }
        i += 1;
    }
    slice(name, 0, name.len())
}

pub(crate) fn void_tag(t: &[char]) -> (r: bool)
    ensures
        r == is_void_tag(t@),
{
    eq_str(t, "area") || eq_str(t, "base") || eq_str(t, "br") || eq_str(t, "col") || eq_str(t, "embed")
        || eq_str(t, "hr") || eq_str(t, "img") || eq_str(t, "input") || eq_str(t, "link") || eq_str(
        t,
        "meta",
    ) || eq_str(t, "param") || eq_str(t, "source") || eq_str(t, "track") || eq_str(t, "wbr")
}

// ------------------------------------------------------------------
// The fragment tree and its serialization
// ------------------------------------------------------------------

/// A node of an HTML or JSX fragment.
pub enum HtmlNode {
    Text(String),
    Comment(String),
    Element { tag: String, attrs: Vec<(String, String)>, children: Vec<HtmlNode>, void: bool },
}

/// The mathematical form of a fragment node.
pub enum SHtml {
    Text(Seq<char>),
    Comment(Seq<char>),
    Element { tag: Seq<char>, attrs: Seq<(Seq<char>, Seq<char>)>, children: Seq<SHtml>, void: bool },
}

pub open spec fn attrs_view(a: Seq<(String, String)>) -> Seq<(Seq<char>, Seq<char>)> {
    a.map_values(|p: (String, String)| (p.0@, p.1@))
}

pub open spec fn html_view(n: HtmlNode) -> SHtml
    decreases n, 1nat,
{
    match n {
        HtmlNode::Text(t) => SHtml::Text(t@),
        HtmlNode::Comment(t) => SHtml::Comment(t@),
        HtmlNode::Element { tag, attrs, children, void } => SHtml::Element {
            tag: tag@,
            attrs: attrs_view(attrs@),
            children: htmls_view(children@),
            void,
        },
    }
}

pub open spec fn htmls_view(s: Seq<HtmlNode>) -> Seq<SHtml>
    decreases s, 0nat,
{
    if s.len() == 0 {
        Seq::empty()
    } else {
        htmls_view(s.drop_last()).push(html_view(s[s.len() - 1]))
    }
}

impl View for HtmlNode {
    type V = SHtml;

    open spec fn view(&self) -> SHtml {
        html_view(*self)
    }
}

pub proof fn lemma_htmls_view_push(s: Seq<HtmlNode>, x: HtmlNode)
    ensures
        htmls_view(s.push(x)) == htmls_view(s).push(x@),
{
    assert(s.push(x).drop_last() =~= s);
}

pub proof fn lemma_htmls_view_index(s: Seq<HtmlNode>)
    ensures
        htmls_view(s).len() == s.len(),
        forall|i: int| 0 <= i < s.len() ==> #[trigger] htmls_view(s)[i] == s[i]@,
    decreases s.len(),
{
    if s.len() > 0 {
        lemma_htmls_view_index(s.drop_last());
    }
}

/// One attribute as written out: ` name` when its value is empty, else ` name="value"`;
/// writing HTML renames it and turns a style object into CSS, writing JSX turns a
/// CSS style into a style object.
pub open spec fn spec_attr_out(name: Seq<char>, val: Seq<char>, jsx: bool) -> Seq<char> {
    let dname = if jsx {
        name
    } else {
        spec_canonical_to_html_attr(name)
    };
    let dval = if name == "style"@ {
        if jsx {
            spec_style_to_jsx(val)
        } else {
            spec_style_to_html(val)
        }
    } else {
        val
    };
    if dval.len() == 0 {
        " "@ + dname
    } else {
        " "@ + dname + "=\""@ + dval + "\""@
    }
}

pub open spec fn spec_serialize_attrs(a: Seq<(Seq<char>, Seq<char>)>, jsx: bool) -> Seq<char>
    decreases a.len(),
{
    if a.len() == 0 {
        Seq::empty()
    } else {
        spec_serialize_attrs(a.drop_last(), jsx) + spec_attr_out(a[a.len() - 1].0, a[a.len() - 1].1, jsx)
    }
}

/// A fragment node written out as HTML (`jsx` false) or JSX.
pub open spec fn spec_serialize_node(n: SHtml, jsx: bool) -> Seq<char>
    decreases n, 1nat,
{
    match n {
        SHtml::Text(t) => t,
        SHtml::Comment(t) => if jsx {
            "{/* "@ + t + " */}"@
        } else {
            "<!-- "@ + t + " -->"@
        },
        SHtml::Element { tag, attrs, children, void } => {
            let a = spec_serialize_attrs(attrs, jsx);
            if void {
                if jsx {
                    "<"@ + tag + a + " />"@
                } else {
                    "<"@ + tag + a + ">"@
                }
            } else {
                "<"@ + tag + a + ">"@ + spec_serialize_nodes(children, jsx) + "</"@ + tag + ">"@
            }
        },
    }
}

pub open spec fn spec_serialize_nodes(ns: Seq<SHtml>, jsx: bool) -> Seq<char>
    decreases ns, 0nat,
{
    if ns.len() == 0 {
        Seq::empty()
    } else {
        spec_serialize_nodes(ns.drop_last(), jsx) + spec_serialize_node(ns[ns.len() - 1], jsx)
    }
}

fn serialize_attrs(attrs: &Vec<(String, String)>, jsx: bool) -> (r: Vec<char>)
    ensures
        r@ == spec_serialize_attrs(attrs_view(attrs@), jsx),
{
    let ghost av = attrs_view(attrs@);
    let mut out: Vec<char> = Vec::new();
    let mut i: usize = 0;
    while i < attrs.len()
        invariant
            i <= attrs@.len(),
            av == attrs_view(attrs@),
            out@ == spec_serialize_attrs(av.take(i as int), jsx),
        decreases attrs.len() - i,
    {
        assert(av.take(i + 1).drop_last() =~= av.take(i as int));
        let name = to_chars(attrs[i].0.as_str());
        let val = to_chars(attrs[i].1.as_str());
        assert(av[i as int] == (name@, val@));
        let dname = if jsx {
            slice(&name, 0, name.len())
        } else {
            canonical_to_html_attr(&name)
        };
        let dval = if eq_str(&name, "style") {
            if jsx {
                convert_style_to_jsx(&val)
            } else {
                convert_style_to_html(&val)
            }
        } else {
            val
        };
        push_str(&mut out, " ");
        push_all(&mut out, &dname);
        if dval.len() > 0 {
            push_str(&mut out, "=\"");
            push_all(&mut out, &dval);
            push_str(&mut out, "\"");
        }
        i += 1;
    }
    assert(av.take(attrs@.len() as int) =~= av);
    out
}

fn serialize_node(node: &HtmlNode, jsx: bool) -> (r: Vec<char>)
    ensures
        r@ == spec_serialize_node(node@, jsx),
    decreases node, 1nat,
{
    match node {
        HtmlNode::Text(t) => to_chars(t.as_str()),
        HtmlNode::Comment(t) => {
            let mut out = if jsx {
                to_chars("{/* ")
            } else {
                to_chars("<!-- ")
            };
            push_str(&mut out, t.as_str());
            if jsx {
                push_str(&mut out, " */}");
            } else {
                push_str(&mut out, " -->");
            }
            out
        },
        HtmlNode::Element { tag, attrs, children, void } => {
            let a = serialize_attrs(attrs, jsx);
            let mut out = to_chars("<");
            push_str(&mut out, tag.as_str());
            push_all(&mut out, &a);
            if *void {
                if jsx {
                    push_str(&mut out, " />");
                } else {
                    push_str(&mut out, ">");
                }
            } else {
                push_str(&mut out, ">");
                let inner = serialize_nodes(children, jsx);
                push_all(&mut out, &inner);
                push_str(&mut out, "</");
                push_str(&mut out, tag.as_str());
                push_str(&mut out, ">");
            }
            out
        },
    }
}

fn serialize_nodes(nodes: &Vec<HtmlNode>, jsx: bool) -> (r: Vec<char>)
    ensures
        r@ == spec_serialize_nodes(htmls_view(nodes@), jsx),
    decreases nodes, 0nat,
{
    let ghost nv = htmls_view(nodes@);
    proof {
        lemma_htmls_view_index(nodes@);
    }
    let mut out: Vec<char> = Vec::new();
    let mut i: usize = 0;
    while i < nodes.len()
        invariant
            i <= nodes@.len(),
            nv == htmls_view(nodes@),
            nv.len() == nodes@.len(),
            forall|j: int| 0 <= j < nodes@.len() ==> #[trigger] nv[j] == nodes@[j]@,
            out@ == spec_serialize_nodes(nv.take(i as int), jsx),
        decreases nodes.len() - i,
    {
        assert(nv.take(i + 1).drop_last() =~= nv.take(i as int));
        let s = serialize_node(&nodes[i], jsx);
        push_all(&mut out, &s);
        i += 1;
    }
    assert(nv.take(nodes@.len() as int) =~= nv);
    out
}


// ------------------------------------------------------------------
// Reading a fragment
// ------------------------------------------------------------------

/// Ends a tag name or an unquoted attribute value.
pub open spec fn tag_stop(c: char) -> bool {
    is_ascii_ws(c) || c == '>' || c == '/'
}

/// Ends an attribute name.
pub open spec fn name_stop(c: char) -> bool {
    is_ascii_ws(c) || c == '=' || c == '>' || c == '/'
}

/// The first index at or after `i` holding a `tag_stop` character, or the end.
pub open spec fn tag_stop_from(s: Seq<char>, i: int) -> int
    decreases s.len() - i,
{
    if 0 <= i < s.len() && !tag_stop(s[i]) {
        tag_stop_from(s, i + 1)
    } else {
        i
    }
}

/// The first index at or after `i` holding a `name_stop` character, or the end.
pub open spec fn name_stop_from(s: Seq<char>, i: int) -> int
    decreases s.len() - i,
{
    if 0 <= i < s.len() && !name_stop(s[i]) {
        name_stop_from(s, i + 1)
    } else {
        i
    }
}

pub proof fn lemma_stops(s: Seq<char>, i: int)
    requires
        0 <= i <= s.len(),
    ensures
        i <= tag_stop_from(s, i) <= s.len(),
        i <= name_stop_from(s, i) <= s.len(),
    decreases s.len() - i,
{
    if i < s.len() {
        lemma_stops(s, i + 1);
    }
}

/// The attributes read from `i` on, and where reading them stopped.
pub open spec fn attr_loop(s: Seq<char>, i: int, jsx: bool) -> (Seq<(Seq<char>, Seq<char>)>, int)
    decreases s.len() - i,
{
    if i < 0 || i > s.len() {
        (Seq::empty(), i)
    } else {
        let j = ws_run_end(s, i);
        proof {
            lemma_ws_run_end(s, i);
        }
        if j >= s.len() || s[j] == '>' || (s[j] == '/' && j + 1 < s.len() && s[j + 1] == '>') {
            (Seq::empty(), j)
        } else {
            let ne = name_stop_from(s, j);
            proof {
                lemma_stops(s, j);
            }
            if ne == j {
                (Seq::empty(), j)
            } else {
                let name = spec_normalize_attr_name(s.subrange(j, ne), jsx);
                let k = ws_run_end(s, ne);
                proof {
                    lemma_ws_run_end(s, ne);
                }
                if !(k < s.len() && s[k] == '=') {
                    let rest = attr_loop(s, k, jsx);
                    (seq![(name, Seq::<char>::empty())] + rest.0, rest.1)
                } else {
                    let m = ws_run_end(s, k + 1);
                    proof {
                        lemma_ws_run_end(s, k + 1);
                    }
                    if m >= s.len() {
                        (Seq::empty(), m)
                    } else if s[m] == '"' || s[m] == '\'' {
                        match find_char_from(s, s[m], m + 1) {
                            Some(e) => {
                                proof {
                                    lemma_find_char_from(s, s[m], m + 1);
                                }
                                let rest = attr_loop(s, e + 1, jsx);
                                (seq![(name, s.subrange(m + 1, e))] + rest.0, rest.1)
                            },
                            None => (Seq::empty(), m),
                        }
                    } else if jsx && s[m] == '{' {
                        match brace_end(s, m + 1, 1) {
                            Some(q) => {
                                proof {
                                    lemma_brace_end(s, m + 1, 1);
                                }
                                let rest = attr_loop(s, q + 1, jsx);
                                (seq![(name, s.subrange(m, q + 1))] + rest.0, rest.1)
                            },
                            None => (Seq::empty(), m),
                        }
                    } else {
                        let e = tag_stop_from(s, m);
                        proof {
                            lemma_stops(s, m);
                        }
                        let rest = attr_loop(s, e, jsx);
                        (seq![(name, s.subrange(m, e))] + rest.0, rest.1)
                    }
                }
            }
        }
    }
}

pub proof fn lemma_attr_loop(s: Seq<char>, i: int, jsx: bool)
    requires
        0 <= i <= s.len(),
    ensures
        i <= attr_loop(s, i, jsx).1 <= s.len(),
    decreases s.len() - i,
{
    lemma_ws_run_end(s, i);
    let j = ws_run_end(s, i);
    if !(j >= s.len() || s[j] == '>' || (s[j] == '/' && j + 1 < s.len() && s[j + 1] == '>')) {
        lemma_stops(s, j);
        let ne = name_stop_from(s, j);
        if ne != j {
            lemma_ws_run_end(s, ne);
            let k = ws_run_end(s, ne);
            if !(k < s.len() && s[k] == '=') {
                lemma_attr_loop(s, k, jsx);
            } else {
                lemma_ws_run_end(s, k + 1);
                let m = ws_run_end(s, k + 1);
                if m < s.len() {
                    if s[m] == '"' || s[m] == '\'' {
                        lemma_find_char_from(s, s[m], m + 1);
                        if let Some(e) = find_char_from(s, s[m], m + 1) {
                            lemma_attr_loop(s, e + 1, jsx);
                        }
                    } else if jsx && s[m] == '{' {
                        lemma_brace_end(s, m + 1, 1);
                        if let Some(q) = brace_end(s, m + 1, 1) {
                            lemma_attr_loop(s, q + 1, jsx);
                        }
                    } else {
                        lemma_stops(s, m);
                        lemma_attr_loop(s, tag_stop_from(s, m), jsx);
                    }
                }
            }
        }
    }
}

/// What reading one node gives: nothing more to read, a reading that never ends, or
/// a node and the index after it.
pub enum Step {
    Done,
    Stuck,
    Next(SHtml, int),
}

/// What reading an element's children gives: a reading that never ends, or the
/// children and the index after the closing tag.
pub enum Kids {
    Stuck,
    Got(Seq<SHtml>, int),
}

/// A comment starting at `k`: its trimmed text and the index after it.
pub open spec fn comment_at(s: Seq<char>, k: int, jsx: bool) -> Option<(Seq<char>, int)> {
    let after = if jsx {
        k + 3
    } else {
        k + 4
    };
    let close = if jsx {
        "*/}"@
    } else {
        "-->"@
    };
    match find_from(s, close, after) {
        Some(e) => Some((trim(s.subrange(after, e)), e + 3)),
        None => None,
    }
}

/// The end of a run of text from `e`: the first `<` that opens a tag, comment or
/// declaration, or in JSX the first `{/*`.
pub open spec fn text_end(s: Seq<char>, e: int, jsx: bool) -> int
    decreases s.len() - e,
{
    if e < 0 || e >= s.len() {
        e
    } else if s[e] == '<' && e + 1 < s.len() && (is_ascii_alpha(s[e + 1]) || s[e + 1] == '/'
        || s[e + 1] == '!' || s[e + 1] == '?') {
        e
    } else if jsx && occurs_at(s, "{/*"@, e) {
        e
    } else {
        text_end(s, e + 1, jsx)
    }
}

pub proof fn lemma_text_end(s: Seq<char>, e: int, jsx: bool)
    requires
        0 <= e <= s.len(),
    ensures
        e <= text_end(s, e, jsx) <= s.len(),
    decreases s.len() - e,
{
    if e < s.len() {
        lemma_text_end(s, e + 1, jsx);
    }
}

/// A text node from `k`.
pub open spec fn text_step(s: Seq<char>, k: int, jsx: bool) -> Step {
    let e = text_end(s, k, jsx);
    if e == k {
        Step::Next(SHtml::Text(Seq::empty()), k)
    } else {
        Step::Next(SHtml::Text(s.subrange(k, e)), e)
    }
}

/// Reads one node at or after `i`, skipping whitespace first.
pub open spec fn single(s: Seq<char>, i: int, jsx: bool) -> Step
    decreases s.len() - i, 2int,
{
    if i < 0 || i > s.len() {
        Step::Done
    } else {
        let k = ws_run_end(s, i);
        proof {
            lemma_ws_run_end(s, i);
        }
        if k >= s.len() {
            Step::Done
        } else if !jsx && occurs_at(s, "<!--"@, k) {
            match comment_at(s, k, false) {
                Some((t, r)) => Step::Next(SHtml::Comment(t), r),
                None => Step::Next(SHtml::Text("<!--"@), k + 4),
            }
        } else if jsx && occurs_at(s, "{/*"@, k) {
            match comment_at(s, k, true) {
                Some((t, r)) => Step::Next(SHtml::Comment(t), r),
                None => Step::Next(SHtml::Text("{/*"@), k + 3),
            }
        } else if s[k] == '<' {
            if k + 1 >= s.len() {
                Step::Done
            } else {
                let el = if is_ascii_alpha(s[k + 1]) {
                    elem(s, k, jsx)
                } else {
                    Step::Done
                };
                if !(el is Done) {
                    el
                } else if (s[k + 1] == '!' || s[k + 1] == '?') && find_char_from(s, '>', k) is Some {
                    Step::Next(SHtml::Text(Seq::empty()), find_char_from(s, '>', k)->0 + 1)
                } else {
                    text_step(s, k, jsx)
                }
            }
        } else {
            text_step(s, k, jsx)
        }
    }
}

/// Reads an element whose `<` is at `i`.
pub open spec fn elem(s: Seq<char>, i: int, jsx: bool) -> Step
    decreases s.len() - i, 1int,
{
    if i < 0 || i >= s.len() {
        Step::Done
    } else {
        let te = tag_stop_from(s, i + 1);
        proof {
            lemma_stops(s, i + 1);
        }
        let tag = str_lowercase(s.subrange(i + 1, te));
        let (attrs, r) = attr_loop(s, te, jsx);
        proof {
            lemma_attr_loop(s, te, jsx);
            lemma_ws_run_end(s, r);
        }
        let r2 = ws_run_end(s, r);
        if r2 + 1 < s.len() && s[r2] == '/' && s[r2 + 1] == '>' {
            Step::Next(SHtml::Element { tag, attrs, children: Seq::empty(), void: true }, r2 + 2)
        } else if r2 < s.len() && s[r2] == '>' {
            if is_void_tag(tag) {
                Step::Next(SHtml::Element { tag, attrs, children: Seq::empty(), void: true }, r2 + 1)
            } else {
                match kids(s, r2 + 1, tag, jsx) {
                    Kids::Stuck => Step::Stuck,
                    Kids::Got(ch, rest) => Step::Next(
                        SHtml::Element { tag, attrs, children: ch, void: false },
                        rest,
                    ),
                }
            }
        } else {
            Step::Done
        }
    }
}

/// Reads the children of an element `tag` from `j` up to its closing tag, the end, a
/// stray closing tag or a place where nothing can be read.
pub open spec fn kids(s: Seq<char>, j: int, tag: Seq<char>, jsx: bool) -> Kids
    decreases s.len() - j, 3int,
{
    if j < 0 || j > s.len() {
        Kids::Got(Seq::empty(), j)
    } else {
        let k = ws_run_end(s, j);
        proof {
            lemma_ws_run_end(s, j);
        }
        if k >= s.len() {
            Kids::Got(Seq::empty(), k)
        } else if occurs_at(s, "</"@ + tag + ">"@, k) {
            Kids::Got(Seq::empty(), k + tag.len() + 3)
        } else if occurs_at(s, "</"@, k) {
            Kids::Got(Seq::empty(), k)
        } else {
            match single(s, k, jsx) {
                Step::Done => Kids::Got(Seq::empty(), k),
                Step::Stuck => Kids::Stuck,
                Step::Next(n, k2) => if k2 <= k || k2 > s.len() {
                    Kids::Stuck
                } else {
                    match kids(s, k2, tag, jsx) {
                        Kids::Stuck => Kids::Stuck,
                        Kids::Got(ch, r) => Kids::Got(seq![n] + ch, r),
                    }
                },
            }
        }
    }
}

/// The nodes of a whole fragment from `i`; `None` where reading never ends.
pub open spec fn read_nodes(s: Seq<char>, i: int, jsx: bool) -> Option<Seq<SHtml>>
    decreases s.len() - i,
{
    if i < 0 || i > s.len() {
        Some(Seq::empty())
    } else {
        match single(s, i, jsx) {
            Step::Done => Some(Seq::empty()),
            Step::Stuck => None,
            Step::Next(n, r) => if r <= ws_run_end(s, i) || r > s.len() {
                None
            } else {
                proof {
                    lemma_ws_run_end(s, i);
                }
                match read_nodes(s, r, jsx) {
                    None => None,
                    Some(ns) => Some(seq![n] + ns),
                }
            },
        }
    }
}

/// An HTML fragment as JSX; `None` where reading the fragment never ends.
pub open spec fn spec_html_to_jsx(html: Seq<char>) -> Option<Seq<char>> {
    match read_nodes(html, 0, false) {
        Some(ns) => Some(spec_serialize_nodes(ns, true)),
        None => None,
    }
}

/// A JSX fragment as HTML; `None` where reading the fragment never ends.
pub open spec fn spec_jsx_to_html(jsx: Seq<char>) -> Option<Seq<char>> {
    match read_nodes(jsx, 0, true) {
        Some(ns) => Some(spec_serialize_nodes(ns, false)),
        None => None,
    }
}


fn tag_stop_at(s: &[char], i: usize) -> (r: usize)
    requires
        i <= s@.len(),
    ensures
        r as int == tag_stop_from(s@, i as int),
        i <= r <= s@.len(),
{
    proof {
        lemma_stops(s@, i as int);
    }
    let mut k = i;
    while k < s.len() && !(is_ascii_whitespace(s[k]) || s[k] == '>' || s[k] == '/')
        invariant
            i <= k <= s@.len(),
            tag_stop_from(s@, i as int) == tag_stop_from(s@, k as int),
        decreases s.len() - k,
    {
        k += 1;
    }
    k
}

fn name_stop_at(s: &[char], i: usize) -> (r: usize)
    requires
        i <= s@.len(),
    ensures
        r as int == name_stop_from(s@, i as int),
        i <= r <= s@.len(),
{
    proof {
        lemma_stops(s@, i as int);
    }
    let mut k = i;
    while k < s.len() && !(is_ascii_whitespace(s[k]) || s[k] == '=' || s[k] == '>' || s[k] == '/')
        invariant
            i <= k <= s@.len(),
            name_stop_from(s@, i as int) == name_stop_from(s@, k as int),
        decreases s.len() - k,
    {
        k += 1;
    }
    k
}

/// The `}` that closes the brace group whose contents start at `from`.
fn brace_close_at(s: &[char], from: usize) -> (r: Option<usize>)
    requires
        from <= s@.len(),
    ensures
        match r {
            Some(q) => brace_end(s@, from as int, 1) == Some(q as int),
            None => brace_end(s@, from as int, 1) is None,
        },
{
    let mut nested: usize = 0;
    let mut i: usize = from;
    while i < s.len()
        invariant
            from <= i <= s@.len(),
            nested <= i - from,
            brace_end(s@, from as int, 1) == brace_end(s@, i as int, nested + 1),
        decreases s.len() - i,
    {
        if s[i] == '{' {
            nested += 1;
        } else if s[i] == '}' {
            if nested == 0 {
                return Some(i);
            }
            nested -= 1;
        }
        i += 1;
    }
    None
}

proof fn lemma_attrs_push(a: Seq<(String, String)>, x: (String, String))
    ensures
        attrs_view(a.push(x)) == attrs_view(a).push((x.0@, x.1@)),
{
    assert(attrs_view(a.push(x)) =~= attrs_view(a).push((x.0@, x.1@)));
}

/// Reads the attributes of a start tag from `i0`; gives them and where reading stopped.
fn read_attrs(s: &[char], i0: usize, jsx: bool) -> (r: (Vec<(String, String)>, usize))
    requires
        i0 <= s@.len(),
    ensures
        attrs_view(r.0@) == attr_loop(s@, i0 as int, jsx).0,
        r.1 as int == attr_loop(s@, i0 as int, jsx).1,
        i0 <= r.1 <= s@.len(),
{
    let mut acc: Vec<(String, String)> = Vec::new();
    let mut i = i0;
    assert(attrs_view(acc@) + attr_loop(s@, i as int, jsx).0 =~= attr_loop(s@, i as int, jsx).0);
    loop
        invariant
            i0 <= i <= s@.len(),
            attr_loop(s@, i0 as int, jsx) == (attrs_view(acc@) + attr_loop(s@, i as int, jsx).0, attr_loop(
                s@,
                i as int,
                jsx,
            ).1),
        decreases s.len() - i,
    {
        let ghost before = attrs_view(acc@);
        let j = ws_end(s, i);
        if j >= s.len() || s[j] == '>' || (s[j] == '/' && j + 1 < s.len() && s[j + 1] == '>') {
            assert(before + Seq::<(Seq<char>, Seq<char>)>::empty() =~= before);
            return (acc, j);
        }
        let ne = name_stop_at(s, j);
        if ne == j {
            assert(before + Seq::<(Seq<char>, Seq<char>)>::empty() =~= before);
            return (acc, j);
        }
        let name = normalize_attr_name(&slice(s, j, ne), jsx);
        let k = ws_end(s, ne);
        if !(k < s.len() && s[k] == '=') {
            let x = (from_chars(&name), from_chars(&Vec::new()));
            proof {
                lemma_attrs_push(acc@, x);
                assert(before.push((x.0@, x.1@)) + attr_loop(s@, k as int, jsx).0 =~= before + (seq![
                    (name@, Seq::<char>::empty()),
                ] + attr_loop(s@, k as int, jsx).0));
            }
            acc.push(x);
            i = k;
        } else {
            let m = ws_end(s, k + 1);
            if m >= s.len() {
                assert(before + Seq::<(Seq<char>, Seq<char>)>::empty() =~= before);
                return (acc, m);
            }
            let c = s[m];
            if c == '"' || c == '\'' {
                proof {
                    lemma_find_char_from(s@, c, m + 1);
                }
                match find_char_at(s, c, m + 1) {
                    Some(e) => {
                        let v = slice(s, m + 1, e);
                        let x = (from_chars(&name), from_chars(&v));
                        proof {
                            lemma_attrs_push(acc@, x);
                            assert(before.push((x.0@, x.1@)) + attr_loop(s@, e + 1, jsx).0 =~= before + (seq![
                                (name@, v@),
                            ] + attr_loop(s@, e + 1, jsx).0));
                        }
                        acc.push(x);
                        i = e + 1;
                    },
                    None => {
                        assert(before + Seq::<(Seq<char>, Seq<char>)>::empty() =~= before);
                        return (acc, m);
                    },
                }
            } else if jsx && c == '{' {
                proof {
                    lemma_brace_end(s@, m + 1, 1);
                }
                match brace_close_at(s, m + 1) {
                    Some(q) => {
                        let v = slice(s, m, q + 1);
                        let x = (from_chars(&name), from_chars(&v));
                        proof {
                            lemma_attrs_push(acc@, x);
                            assert(before.push((x.0@, x.1@)) + attr_loop(s@, q + 1, jsx).0 =~= before + (seq![
                                (name@, v@),
                            ] + attr_loop(s@, q + 1, jsx).0));
                        }
                        acc.push(x);
                        i = q + 1;
                    },
                    None => {
                        assert(before + Seq::<(Seq<char>, Seq<char>)>::empty() =~= before);
                        return (acc, m);
                    },
                }
            } else {
                let e = tag_stop_at(s, m);
                let v = slice(s, m, e);
                let x = (from_chars(&name), from_chars(&v));
                proof {
                    lemma_attrs_push(acc@, x);
                    assert(before.push((x.0@, x.1@)) + attr_loop(s@, e as int, jsx).0 =~= before + (seq![
                        (name@, v@),
                    ] + attr_loop(s@, e as int, jsx).0));
                }
                acc.push(x);
                i = e;
            }
        }
    }
}


/// What reading one node gave.
pub enum ParseStep {
    Done,
    Stuck,
    Next(HtmlNode, usize),
}

pub open spec fn step_view(p: ParseStep) -> Step {
    match p {
        ParseStep::Done => Step::Done,
        ParseStep::Stuck => Step::Stuck,
        ParseStep::Next(n, k) => Step::Next(n@, k as int),
    }
}

/// `k` with the children `a` in front.
pub open spec fn prepend_kids(a: Seq<SHtml>, k: Kids) -> Kids {
    match k {
        Kids::Stuck => Kids::Stuck,
        Kids::Got(ch, r) => Kids::Got(a + ch, r),
    }
}

fn text_node(v: &[char]) -> (r: HtmlNode)
    ensures
        r@ == SHtml::Text(v@),
{
    HtmlNode::Text(from_chars(v))
}

/// The comment that starts at `k` (which holds its opening marker).
fn parse_comment(s: &[char], k: usize, jsx: bool) -> (r: Option<(Vec<char>, usize)>)
    requires
        jsx ==> k + 3 <= s.len(),
        !jsx ==> k + 4 <= s.len(),
    ensures
        match r {
            Some((t, e)) => comment_at(s@, k as int, jsx) == Some((t@, e as int)) && e <= s@.len(),
            None => comment_at(s@, k as int, jsx) is None,
        },
{
    let after = if jsx {
        k + 3
    } else {
        k + 4
    };
    let close = if jsx {
        to_chars("*/}")
    } else {
        to_chars("-->")
    };
    proof {
        reveal_strlit("*/}");
        reveal_strlit("-->");
    }
    match find_at(s, &close, after) {
        Some(e) => {
            assert(e + 3 <= s.len());
            let t = trim_chars(&slice(s, after, e));
            Some((t, e + 3))
        },
        None => None,
    }
}

/// Whether a run of text stops at `e`.
fn text_stops(s: &[char], e: usize, jsx: bool) -> (r: bool)
    requires
        e < s@.len(),
    ensures
        r == ((s@[e as int] == '<' && e + 1 < s@.len() && (is_ascii_alpha(s@[e + 1]) || s@[e + 1] == '/'
            || s@[e + 1] == '!' || s@[e + 1] == '?')) || (jsx && occurs_at(s@, "{/*"@, e as int))),
{
    if s[e] == '<' && e + 1 < s.len() {
        let next = s[e + 1];
        if ('a' <= next && next <= 'z') || ('A' <= next && next <= 'Z') || next == '/' || next == '!'
            || next == '?' {
            return true;
        }
    }
    let open_jsx = to_chars("{/*");
    jsx && matches_at(s, &open_jsx, e)
}

/// The run of text from `k`.
fn parse_text(s: &[char], k: usize, jsx: bool) -> (r: (HtmlNode, usize))
    requires
        k <= s@.len(),
    ensures
        step_view(ParseStep::Next(r.0, r.1)) == text_step(s@, k as int, jsx),
        k <= r.1 <= s@.len(),
{
    proof {
        lemma_text_end(s@, k as int, jsx);
    }
    let mut e = k;
    while e < s.len() && !text_stops(s, e, jsx)
        invariant
            k <= e <= s@.len(),
            text_end(s@, k as int, jsx) == text_end(s@, e as int, jsx),
        decreases s.len() - e,
    {
        e += 1;
    }
    if e == k {
        (text_node(&Vec::new()), k)
    } else {
        (text_node(&slice(s, k, e)), e)
    }
}

/// Reads one node at or after `i`.
fn parse_single_node(s: &[char], i: usize, jsx: bool) -> (r: ParseStep)
    requires
        i <= s@.len(),
    ensures
        step_view(r) == single(s@, i as int, jsx),
        r matches ParseStep::Next(_, k) ==> k <= s@.len(),
    decreases s@.len() - i, 2int,
{
    let k = ws_end(s, i);
    if k >= s.len() {
        return ParseStep::Done;
    }
    let open_html = to_chars("<!--");
    let open_jsx = to_chars("{/*");
    proof {
        reveal_strlit("<!--");
        reveal_strlit("{/*");
    }
    if !jsx && matches_at(s, &open_html, k) {
        return match parse_comment(s, k, false) {
            Some((t, r)) => ParseStep::Next(HtmlNode::Comment(from_chars(&t)), r),
            None => ParseStep::Next(text_node(&open_html), k + 4),
        };
    }
    if jsx && matches_at(s, &open_jsx, k) {
        return match parse_comment(s, k, true) {
            Some((t, r)) => ParseStep::Next(HtmlNode::Comment(from_chars(&t)), r),
            None => ParseStep::Next(text_node(&open_jsx), k + 3),
        };
    }
    if s[k] == '<' {
        if k + 1 >= s.len() {
            return ParseStep::Done;
        }
        let next = s[k + 1];
        if ('a' <= next && next <= 'z') || ('A' <= next && next <= 'Z') {
            let el = parse_element(s, k, jsx);
            match el {
                ParseStep::Done => {},
                _ => {
                    return el;
                },
            }
        }
        if next == '!' || next == '?' {
            proof {
                lemma_find_char_from(s@, '>', k as int);
            }
            match find_char_at(s, '>', k) {
                Some(gt) => {
                    return ParseStep::Next(text_node(&Vec::new()), gt + 1);
                },
                None => {},
            }
        }
    }
    let (t, e) = parse_text(s, k, jsx);
    ParseStep::Next(t, e)
}

/// Reads the element whose `<` is at `i`.
fn parse_element(s: &[char], i: usize, jsx: bool) -> (r: ParseStep)
    requires
        i < s.len(),
    ensures
        step_view(r) == elem(s@, i as int, jsx),
        r matches ParseStep::Next(_, k) ==> k <= s@.len(),
    decreases s@.len() - i, 1int,
{
    let te = tag_stop_at(s, i + 1);
    let tag = lowercase(&slice(s, i + 1, te));
    let (attrs, r) = read_attrs(s, te, jsx);
    let r2 = ws_end(s, r);
    if r2 < s.len() && r2 + 1 < s.len() && s[r2] == '/' && s[r2 + 1] == '>' {
        return ParseStep::Next(
            HtmlNode::Element { tag: from_chars(&tag), attrs, children: Vec::new(), void: true },
            r2 + 2,
        );
    }
    if r2 < s.len() && s[r2] == '>' {
        if void_tag(&tag) {
            return ParseStep::Next(
                HtmlNode::Element { tag: from_chars(&tag), attrs, children: Vec::new(), void: true },
                r2 + 1,
            );
        }
        match parse_children(s, r2 + 1, &tag, jsx) {
            None => ParseStep::Stuck,
            Some((ch, rest)) => ParseStep::Next(
                HtmlNode::Element { tag: from_chars(&tag), attrs, children: ch, void: false },
                rest,
            ),
        }
    } else {
        ParseStep::Done
    }
}

/// Reads the children of the element `tag` from `j0`; `None` where reading never ends.
fn parse_children(s: &[char], j0: usize, tag: &[char], jsx: bool) -> (r: Option<(Vec<HtmlNode>, usize)>)
    requires
        j0 <= s@.len(),
    ensures
        match r {
            None => kids(s@, j0 as int, tag@, jsx) is Stuck,
            Some((ch, k)) => kids(s@, j0 as int, tag@, jsx) == Kids::Got(htmls_view(ch@), k as int)
                && k <= s@.len(),
        },
    decreases s@.len() - j0, 3int,
{
    let mut close = to_chars("</");
    push_all(&mut close, tag);
    push_str(&mut close, ">");
    let lt_slash = to_chars("</");
    proof {
        reveal_strlit("</");
        reveal_strlit(">");
    }
    let mut acc: Vec<HtmlNode> = Vec::new();
    let mut j = j0;
    assert(prepend_kids(htmls_view(acc@), kids(s@, j as int, tag@, jsx)) =~= kids(s@, j as int, tag@, jsx)) by {
        assert(htmls_view(acc@) =~= Seq::<SHtml>::empty());
        match kids(s@, j as int, tag@, jsx) {
            Kids::Got(ch, r) => assert(Seq::<SHtml>::empty() + ch =~= ch),
            Kids::Stuck => {},
        }
    }
    loop
        invariant
            j0 <= j <= s@.len(),
            close@ == "</"@ + tag@ + ">"@,
            lt_slash@ == "</"@,
            kids(s@, j0 as int, tag@, jsx) == prepend_kids(htmls_view(acc@), kids(s@, j as int, tag@, jsx)),
        decreases s.len() - j,
    {
        let ghost before = htmls_view(acc@);
        let k = ws_end(s, j);
        if k >= s.len() {
            assert(before + Seq::<SHtml>::empty() =~= before);
            return Some((acc, k));
        }
        if matches_at(s, &close, k) {
            assert(before + Seq::<SHtml>::empty() =~= before);
            proof {
                reveal_strlit("</");
                reveal_strlit(">");
            }
            assert(close@.len() == tag@.len() + 3);
            return Some((acc, k + close.len()));
        }
        if matches_at(s, &lt_slash, k) {
            assert(before + Seq::<SHtml>::empty() =~= before);
            return Some((acc, k));
        }
        match parse_single_node(s, k, jsx) {
            ParseStep::Done => {
                assert(before + Seq::<SHtml>::empty() =~= before);
                return Some((acc, k));
            },
            ParseStep::Stuck => {
                return None;
            },
            ParseStep::Next(n, k2) => {
                if k2 <= k {
                    return None;
                }
                let ghost nv = n@;
                proof {
                    lemma_htmls_view_push(acc@, n);
                    match kids(s@, k2 as int, tag@, jsx) {
                        Kids::Got(ch, r) => assert(before.push(nv) + ch =~= before + (seq![nv] + ch)),
                        Kids::Stuck => {},
                    }
                }
                acc.push(n);
                j = k2;
            },
        }
    }
}

/// Reads the nodes of a whole fragment; `None` where reading never ends.
fn parse_nodes(s: &[char], jsx: bool) -> (r: Option<Vec<HtmlNode>>)
    ensures
        match r {
            None => read_nodes(s@, 0, jsx) is None,
            Some(ns) => read_nodes(s@, 0, jsx) == Some(htmls_view(ns@)),
        },
{
    let mut acc: Vec<HtmlNode> = Vec::new();
    let mut i: usize = 0;
    assert(htmls_view(acc@) =~= Seq::<SHtml>::empty());
    assert(read_nodes(s@, 0, jsx) == match read_nodes(s@, i as int, jsx) {
        Some(ns) => Some(htmls_view(acc@) + ns),
        None => None,
    }) by {
        if let Some(ns) = read_nodes(s@, 0, jsx) {
            assert(Seq::<SHtml>::empty() + ns =~= ns);
        }
    }
    loop
        invariant
            i <= s@.len(),
            read_nodes(s@, 0, jsx) == match read_nodes(s@, i as int, jsx) {
                Some(ns) => Some(htmls_view(acc@) + ns),
                None => None,
            },
        decreases s.len() - i,
    {
        let ghost before = htmls_view(acc@);
        match parse_single_node(s, i, jsx) {
            ParseStep::Done => {
                assert(before + Seq::<SHtml>::empty() =~= before);
                return Some(acc);
            },
            ParseStep::Stuck => {
                return None;
            },
            ParseStep::Next(n, r) => {
                let k = ws_end(s, i);
                if r <= k {
                    return None;
                }
                let ghost nv = n@;
                proof {
                    lemma_htmls_view_push(acc@, n);
                    if let Some(ns) = read_nodes(s@, r as int, jsx) {
                        assert(before.push(nv) + ns =~= before + (seq![nv] + ns));
                    }
                }
                acc.push(n);
                i = r;
            },
        }
    }
}

/// The JSX form of an HTML fragment; `None` exactly where reading the fragment would
/// never end.
pub fn try_html_to_jsx(html: &str) -> (r: Option<String>)
    ensures
        match r {
            Some(o) => spec_html_to_jsx(html@) == Some(o@),
            None => spec_html_to_jsx(html@) is None,
        },
{
    let s = to_chars(html);
    match parse_nodes(&s, false) {
        Some(ns) => Some(from_chars(&serialize_nodes(&ns, true))),
        None => None,
    }
}

/// The HTML form of a JSX fragment; `None` exactly where reading the fragment would
/// never end.
pub fn try_jsx_to_html(jsx: &str) -> (r: Option<String>)
    ensures
        match r {
            Some(o) => spec_jsx_to_html(jsx@) == Some(o@),
            None => spec_jsx_to_html(jsx@) is None,
        },
{
    let s = to_chars(jsx);
    match parse_nodes(&s, true) {
        Some(ns) => Some(from_chars(&serialize_nodes(&ns, false))),
        None => None,
    }
}

/// Converts an HTML fragment to JSX: comments become `{/* .. */}`, void elements close
/// themselves, attribute names take their JSX form and style strings become objects.
pub fn html_to_jsx(html: &str) -> (r: String)
    requires
        spec_html_to_jsx(html@) is Some,
    ensures
        spec_html_to_jsx(html@) == Some(r@),
{
    match try_html_to_jsx(html) {
        Some(o) => o,
        None => String::new(),
    }
}

/// Converts a JSX fragment to HTML, the inverse direction of `html_to_jsx`.
pub fn jsx_to_html(jsx: &str) -> (r: String)
    requires
        spec_jsx_to_html(jsx@) is Some,
    ensures
        spec_jsx_to_html(jsx@) == Some(r@),
{
    match try_jsx_to_html(jsx) {
        Some(o) => o,
        None => String::new(),
    }
}

} // verus!
