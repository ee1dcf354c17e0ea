//! HTML and JSX markup rewritten in place, pass by pass, without building a tree:
//! comments, void elements, attribute names and `style` values.
use vstd::prelude::*;
use crate::renderer::html_jsx::{
    attr_table, attr_table_vec, convert_style_to_html, convert_style_to_jsx, is_void_tag,
    spec_style_to_html, spec_style_to_jsx, void_tag,
};
use crate::text::{
    find_at, find_char_at, find_char_from, find_from, has_prefix, is_ascii_whitespace,
    is_ascii_ws, lemma_find_char_from, lemma_find_from, lowercase, occurs_at, push_all, push_str,
    slice, starts_with, str_lowercase, to_chars, trim, trim_chars, trim_end, trim_end_chars,
    trim_start, trim_start_chars,
};
use crate::util::{strip_trailing, strip_trailing_chars};

verus! {

// ------------------------------------------------------------------
// Comments
// ------------------------------------------------------------------

/// `s[i..]` with each comment `open ... close` written as `a`, the trimmed inside, and
/// `b`; an `open` that is never closed is kept as it is.
pub open spec fn swap_comments(s: Seq<char>, i: int, open: Seq<char>, close: Seq<char>, a: Seq<char>, b: Seq<char>) -> Seq<char>
    decreases s.len() - i,
{
    if i < 0 || i > s.len() || open.len() == 0 {
        Seq::empty()
    } else {
        match find_from(s, open, i) {
            None => s.subrange(i, s.len() as int),
            Some(k) => {
                if k < i || k + open.len() > s.len() {
                    Seq::empty()
                } else {
                    let j = k + open.len();
                    s.subrange(i, k) + match find_from(s, close, j) {
                        Some(e) => if e < j || e + close.len() > s.len() {
                            Seq::empty()
                        } else {
                            a + trim(s.subrange(j, e)) + b + swap_comments(s, e + close.len(), open, close, a, b)
                        },
                        None => open + swap_comments(s, j, open, close, a, b),
                    }
                }
            },
        }
    }
}

/// HTML comments `<!-- ... -->` as JSX comments `{/* ... */}`.
pub open spec fn spec_html_comments_to_jsx(s: Seq<char>) -> Seq<char> {
    swap_comments(s, 0, "<!--"@, "-->"@, "{/* "@, " */}"@)
}

/// JSX comments `{/* ... */}` as HTML comments `<!-- ... -->`.
pub open spec fn spec_jsx_comments_to_html(s: Seq<char>) -> Seq<char> {
    swap_comments(s, 0, "{/*"@, "*/}"@, "<!-- "@, " -->"@)
}

fn rewrite_comments(s: &[char], open: &str, close: &str, a: &str, b: &str) -> (r: Vec<char>)
    requires
        open@.len() > 0,
    ensures
        r@ == swap_comments(s@, 0, open@, close@, a@, b@),
{
    let op = to_chars(open);
    let cl = to_chars(close);
    let mut out: Vec<char> = Vec::new();
    let len = s.len();
    let mut i: usize = 0;
    assert(swap_comments(s@, 0, open@, close@, a@, b@) =~= out@ + swap_comments(s@, 0, open@, close@, a@, b@));
    loop
        invariant
            i <= s@.len(),
            len == s@.len(),
            op@ == open@,
            cl@ == close@,
            open@.len() > 0,
            swap_comments(s@, 0, open@, close@, a@, b@) == out@ + swap_comments(s@, i as int, open@, close@, a@, b@),
        decreases s@.len() - i,
    {
        proof {
            lemma_find_from(s@, open@, i as int);
        }
        match find_at(s, &op, i) {
            None => {
                let ghost before = out@;
                push_all(&mut out, &slice(s, i, s.len()));
                assert(before + swap_comments(s@, i as int, open@, close@, a@, b@) =~= out@);
                return out;
            },
            Some(k) => {
                assert(k + op@.len() <= s@.len());
                let j = k + op.len();
                let ghost before = out@;
                push_all(&mut out, &slice(s, i, k));
                proof {
                    lemma_find_from(s@, close@, j as int);
                }
                match find_at(s, &cl, j) {
                    Some(e) => {
                        assert(e + cl@.len() <= s@.len());
                        push_str(&mut out, a);
                        push_all(&mut out, &trim_chars(&slice(s, j, e)));
                        push_str(&mut out, b);
                        let ghost mid = out@;
                        assert(before + swap_comments(s@, i as int, open@, close@, a@, b@) =~= mid
                            + swap_comments(s@, e + close@.len(), open@, close@, a@, b@));
                        i = e + cl.len();
                    },
                    None => {
                        push_all(&mut out, &op);
                        let ghost mid = out@;
                        assert(before + swap_comments(s@, i as int, open@, close@, a@, b@) =~= mid
                            + swap_comments(s@, j as int, open@, close@, a@, b@));
                        i = j;
                    },
                }
            },
        }
    }
}

// ------------------------------------------------------------------
// Tags
// ------------------------------------------------------------------

/// What a pass over the tags does to each opening or self-closing tag.
#[derive(Clone, Copy)]
pub enum TagPass {
    /// Void elements closed JSX-style: `<br>` becomes `<br />`.
    VoidToJsx,
    /// Void elements closed HTML-style: `<br />` becomes `<br>`.
    VoidToHtml,
    /// HTML attribute names renamed to their JSX names.
    AttrsToJsx,
    /// JSX attribute names renamed to their HTML names.
    AttrsToHtml,
    /// A `style` string turned into a JSX style object.
    StyleToJsx,
    /// A JSX style object turned into a `style` string.
    StyleToHtml,
}

/// The `>` that ends the tag whose text continues at `j`, outside quotes; `q` is 0
/// outside quotes, 1 inside `'...'` and 2 inside `"..."`.
pub open spec fn tag_end_from(s: Seq<char>, j: int, q: int) -> Option<int>
    decreases s.len() - j,
{
    if j < 0 || j >= s.len() {
        None
    } else {
        let c = s[j];
        if q == 1 {
            tag_end_from(s, j + 1, if c == '\'' { 0 } else { 1 })
        } else if q == 2 {
            tag_end_from(s, j + 1, if c == '"' { 0 } else { 2 })
        } else if c == '>' {
            Some(j)
        } else {
            tag_end_from(s, j + 1, if c == '\'' { 1 } else if c == '"' { 2 } else { 0 })
        }
    }
}

pub proof fn lemma_tag_end_from(s: Seq<char>, j: int, q: int)
    requires
        0 <= j,
    ensures
        tag_end_from(s, j, q) matches Some(k) ==> j <= k < s.len() && s[k] == '>',
    decreases s.len() - j,
{
    if j < s.len() {
        let c = s[j];
        lemma_tag_end_from(s, j + 1, 0);
        lemma_tag_end_from(s, j + 1, 1);
        lemma_tag_end_from(s, j + 1, 2);
    }
}

/// The first ASCII whitespace at or after `i`, or the end.
pub open spec fn ascii_ws_from(s: Seq<char>, i: int) -> int
    decreases s.len() - i,
{
    if 0 <= i < s.len() && !is_ascii_ws(s[i]) {
        ascii_ws_from(s, i + 1)
    } else {
        i
    }
}

pub proof fn lemma_ascii_ws_from(s: Seq<char>, i: int)
    requires
        0 <= i <= s.len(),
    ensures
        i <= ascii_ws_from(s, i) <= s.len(),
    decreases s.len() - i,
{
    if i < s.len() && !is_ascii_ws(s[i]) {
        lemma_ascii_ws_from(s, i + 1);
    }
}

/// `s[i..]` with each non-overlapping `p` replaced by `r`, from left to right.
pub open spec fn replace_from(s: Seq<char>, i: int, p: Seq<char>, r: Seq<char>) -> Seq<char>
    decreases s.len() - i,
{
    if i < 0 || i > s.len() || p.len() == 0 {
        Seq::empty()
    } else {
        match find_from(s, p, i) {
            None => s.subrange(i, s.len() as int),
            Some(k) => if k < i || k + p.len() > s.len() {
                Seq::empty()
            } else {
                s.subrange(i, k) + r + replace_from(s, k + p.len(), p, r)
            },
        }
    }
}

/// `s` with its first `p` replaced by `r`.
pub open spec fn replace_first(s: Seq<char>, p: Seq<char>, r: Seq<char>) -> Seq<char> {
    match find_from(s, p, 0) {
        None => s,
        Some(k) => s.subrange(0, k) + r + s.subrange(k + p.len(), s.len() as int),
    }
}

/// Attribute `from` renamed `to` in an attribute string: after a space anywhere, and
/// at its start.
pub open spec fn rename_one(a: Seq<char>, from: Seq<char>, to: Seq<char>) -> Seq<char> {
    let fe = from + "="@;
    let te = to + "="@;
    let a1 = replace_from(a, 0, " "@ + fe, " "@ + te);
    if has_prefix(trim_start(a1), fe) {
        replace_first(a1, fe, te)
    } else {
        a1
    }
}

/// Each attribute of the table renamed in turn.
pub open spec fn rename_attrs(a: Seq<char>, t: Seq<(Seq<char>, Seq<char>)>) -> Seq<char>
    decreases t.len(),
{
    if t.len() == 0 {
        a
    } else {
        rename_attrs(rename_one(a, t[0].0, t[0].1), t.drop_first())
    }
}

/// The table with each pair turned round.
pub open spec fn turned(t: Seq<(Seq<char>, Seq<char>)>) -> Seq<(Seq<char>, Seq<char>)> {
    t.map_values(|p: (Seq<char>, Seq<char>)| (p.1, p.0))
}

/// The end of an unquoted attribute value: the first ASCII whitespace or `>` from `i`.
pub open spec fn value_end(s: Seq<char>, i: int) -> int
    decreases s.len() - i,
{
    if 0 <= i < s.len() && !is_ascii_ws(s[i]) && s[i] != '>' {
        value_end(s, i + 1)
    } else {
        i
    }
}

pub proof fn lemma_value_end(s: Seq<char>, i: int)
    requires
        0 <= i <= s.len(),
    ensures
        i <= value_end(s, i) <= s.len(),
    decreases s.len() - i,
{
    if i < s.len() && !is_ascii_ws(s[i]) && s[i] != '>' {
        lemma_value_end(s, i + 1);
    }
}

/// The value that starts `s` (quoted or not, after whitespace) and what follows it.
pub open spec fn attr_value(s: Seq<char>) -> (Seq<char>, Seq<char>) {
    let t = trim_start(s);
    if t.len() == 0 {
        (Seq::empty(), Seq::empty())
    } else if t[0] == '"' || t[0] == '\'' {
        match find_char_from(t, t[0], 1) {
            Some(e) => (t.subrange(1, e), t.subrange(e + 1, t.len() as int)),
            None => (Seq::empty(), t),
        }
    } else {
        let end = value_end(t, 0);
        (t.subrange(0, end), t.subrange(end, t.len() as int))
    }
}

/// The attribute string with the value of its first `style=` converted, and quoted.
pub open spec fn restyle(a: Seq<char>, jsx: bool) -> Seq<char> {
    match find_from(a, "style="@, 0) {
        None => a,
        Some(pos) => {
            let (v, rest) = attr_value(a.subrange(pos + 6, a.len() as int));
            let nv = if jsx {
                spec_style_to_jsx(v)
            } else {
                spec_style_to_html(v)
            };
            a.subrange(0, pos) + "style=\""@ + nv + "\""@ + rest
        },
    }
}

/// The tag a pass makes of a tag's name, attribute string and closing (`>` or `/>`).
pub open spec fn spec_transform(pass: TagPass, name: Seq<char>, attrs: Seq<char>, closing: Seq<char>) -> Seq<char> {
    let void = is_void_tag(str_lowercase(name));
    match pass {
        TagPass::VoidToJsx => if void {
            "<"@ + name + strip_trailing(attrs, '/') + " />"@
        } else {
            "<"@ + name + attrs + closing
        },
        TagPass::VoidToHtml => if void {
            "<"@ + name + trim_end(strip_trailing(attrs, '/')) + ">"@
        } else {
            "<"@ + name + attrs + ">"@
        },
        TagPass::AttrsToJsx => "<"@ + name + rename_attrs(attrs, attr_table()) + closing,
        TagPass::AttrsToHtml => "<"@ + name + rename_attrs(attrs, turned(attr_table())) + closing,
        TagPass::StyleToJsx => "<"@ + name + restyle(attrs, true) + closing,
        TagPass::StyleToHtml => "<"@ + name + restyle(attrs, false) + closing,
    }
}

/// The tag a pass makes of the text between `<` and `>`.
pub open spec fn spec_rewrite_tag(pass: TagPass, inner: Seq<char>) -> Seq<char> {
    let sc = inner.len() > 0 && inner.last() == '/';
    let body = if sc {
        inner.drop_last()
    } else {
        inner
    };
    let ne = ascii_ws_from(body, 0);
    spec_transform(
        pass,
        body.subrange(0, ne),
        body.subrange(ne, body.len() as int),
        if sc {
            "/>"@
        } else {
            ">"@
        },
    )
}

/// `s[i..]` with a pass applied to each opening or self-closing tag; closing tags,
/// comments and declarations are kept, and so is a `<` that opens no tag.
pub open spec fn tags_from(s: Seq<char>, i: int, pass: TagPass) -> Seq<char>
    decreases s.len() - i,
{
    if i < 0 || i >= s.len() {
        Seq::empty()
    } else {
        proof {
            lemma_find_char_from(s, '<', i);
        }
        match find_char_from(s, '<', i) {
            None => s.subrange(i, s.len() as int),
            Some(lt) => s.subrange(i, lt) + if lt + 1 >= s.len() {
                "<"@
            } else if s[lt + 1] == '/' || s[lt + 1] == '!' || s[lt + 1] == '?' {
                proof {
                    lemma_find_char_from(s, '>', lt);
                }
                match find_char_from(s, '>', lt) {
                    Some(gt) => s.subrange(lt, gt + 1) + tags_from(s, gt + 1, pass),
                    None => s.subrange(lt, s.len() as int),
                }
            } else {
                proof {
                    lemma_tag_end_from(s, lt + 1, 0);
                }
                match tag_end_from(s, lt + 1, 0) {
                    Some(gt) => spec_rewrite_tag(pass, s.subrange(lt + 1, gt)) + tags_from(s, gt + 1, pass),
                    None => "<"@ + tags_from(s, lt + 1, pass),
                }
            },
        }
    }
}

/// What `html_to_jsx` returns: comments, void elements, attribute names and styles of
/// HTML markup rewritten for JSX.
pub open spec fn spec_rewrite_html_to_jsx(html: Seq<char>) -> Seq<char> {
    let c = spec_html_comments_to_jsx(html);
    let v = tags_from(c, 0, TagPass::VoidToJsx);
    let a = tags_from(v, 0, TagPass::AttrsToJsx);
    tags_from(a, 0, TagPass::StyleToJsx)
}

/// What `jsx_to_html` returns: the same rewriting the other way.
pub open spec fn spec_rewrite_jsx_to_html(jsx: Seq<char>) -> Seq<char> {
    let c = spec_jsx_comments_to_html(jsx);
    let v = tags_from(c, 0, TagPass::VoidToHtml);
    let a = tags_from(v, 0, TagPass::AttrsToHtml);
    tags_from(a, 0, TagPass::StyleToHtml)
}

proof fn lemma_no_lt_comments(s: Seq<char>, i: int, open: Seq<char>, close: Seq<char>, a: Seq<char>, b: Seq<char>)
    requires
        0 <= i <= s.len(),
        open.len() > 0,
        open[0] == '<',
        forall|k: int| 0 <= k < s.len() ==> s[k] != '<',
    ensures
        swap_comments(s, i, open, close, a, b) == s.subrange(i, s.len() as int),
{
    lemma_find_from(s, open, i);
    if let Some(k) = find_from(s, open, i) {
        assert(s.subrange(k, k + open.len())[0] == s[k]);
    }
}

proof fn lemma_no_lt_tags(s: Seq<char>, pass: TagPass)
    requires
        forall|k: int| 0 <= k < s.len() ==> s[k] != '<',
    ensures
        tags_from(s, 0, pass) == s,
{
    lemma_find_char_from(s, '<', 0);
    if s.len() == 0 {
        assert(tags_from(s, 0, pass) =~= s);
    } else {
        assert(s.subrange(0, s.len() as int) =~= s);
    }
}

/// Text without a `<` comes out of `html_to_jsx` as it went in.
pub proof fn law_plain_text_unchanged(s: Seq<char>)
    requires
        forall|k: int| 0 <= k < s.len() ==> s[k] != '<',
    ensures
        spec_rewrite_html_to_jsx(s) == s,
{
    reveal_strlit("<!--");
    lemma_no_lt_comments(s, 0, "<!--"@, "-->"@, "{/* "@, " */}"@);
    assert(s.subrange(0, s.len() as int) =~= s);
    lemma_no_lt_tags(s, TagPass::VoidToJsx);
    lemma_no_lt_tags(s, TagPass::AttrsToJsx);
    lemma_no_lt_tags(s, TagPass::StyleToJsx);
}

fn tag_end_at(s: &[char], from: usize) -> (r: Option<usize>)
    ensures
        r matches Some(k) ==> tag_end_from(s@, from as int, 0) == Some(k as int) && from <= k < s@.len(),
        r is None ==> tag_end_from(s@, from as int, 0) is None,
{
    proof {
        lemma_tag_end_from(s@, from as int, 0);
    }
    let mut j = from;
    let mut q: u8 = 0;
    while j < s.len()
        invariant
            from <= j,
            q <= 2,
            tag_end_from(s@, from as int, 0) == tag_end_from(s@, j as int, q as int),
        decreases s.len() - j,
    {
        let c = s[j];
        if q == 1 {
            if c == '\'' {
                q = 0;
            }
        } else if q == 2 {
            if c == '"' {
                q = 0;
            }
        } else if c == '>' {
            return Some(j);
        } else if c == '\'' {
            q = 1;
        } else if c == '"' {
            q = 2;
        }
        j += 1;
    }
    None
}

fn ascii_ws_at(s: &[char], from: usize) -> (r: usize)
    requires
        from <= s@.len(),
    ensures
        r as int == ascii_ws_from(s@, from as int),
        from <= r <= s@.len(),
{
    proof {
        lemma_ascii_ws_from(s@, from as int);
    }
    let mut i = from;
    while i < s.len() && !is_ascii_whitespace(s[i])
        invariant
            from <= i <= s@.len(),
            ascii_ws_from(s@, from as int) == ascii_ws_from(s@, i as int),
        decreases s.len() - i,
    {
        i += 1;
    }
    i
}

fn replace_all(s: &[char], p: &[char], r: &[char]) -> (out: Vec<char>)
    requires
        p@.len() > 0,
    ensures
        out@ == replace_from(s@, 0, p@, r@),
{
    let len = s.len();
    let mut out: Vec<char> = Vec::new();
    let mut i: usize = 0;
    assert(replace_from(s@, 0, p@, r@) =~= out@ + replace_from(s@, 0, p@, r@));
    loop
        invariant
            i <= s@.len(),
            len == s@.len(),
            p@.len() > 0,
            replace_from(s@, 0, p@, r@) == out@ + replace_from(s@, i as int, p@, r@),
        decreases s@.len() - i,
    {
        proof {
            lemma_find_from(s@, p@, i as int);
        }
        match find_at(s, p, i) {
            None => {
                let ghost before = out@;
                push_all(&mut out, &slice(s, i, len));
                assert(before + replace_from(s@, i as int, p@, r@) =~= out@);
                return out;
            },
            Some(k) => {
                assert(k + p@.len() <= s@.len());
                let ghost before = out@;
                push_all(&mut out, &slice(s, i, k));
                push_all(&mut out, r);
                assert(before + replace_from(s@, i as int, p@, r@) =~= out@ + replace_from(
                    s@,
                    k + p@.len(),
                    p@,
                    r@,
                ));
                i = k + p.len();
            },
        }
    }
}

fn replace_first_of(s: &[char], p: &[char], r: &[char]) -> (out: Vec<char>)
    ensures
        out@ == replace_first(s@, p@, r@),
{
    let len = s.len();
    match find_at(s, p, 0) {
        None => slice(s, 0, len),
        Some(k) => {
            assert(k + p@.len() <= s@.len());
            let mut out = slice(s, 0, k);
            push_all(&mut out, r);
            push_all(&mut out, &slice(s, k + p.len(), s.len()));
            out
        },
    }
}

fn rename_one_attr(a: &[char], from: &str, to: &str) -> (r: Vec<char>)
    ensures
        r@ == rename_one(a@, from@, to@),
{
    let mut fe = to_chars(from);
    push_str(&mut fe, "=");
    let mut te = to_chars(to);
    push_str(&mut te, "=");
    let mut sfe = to_chars(" ");
    push_all(&mut sfe, &fe);
    let mut ste = to_chars(" ");
    push_all(&mut ste, &te);
    proof {
        reveal_strlit(" ");
    }
    let a1 = replace_all(a, &sfe, &ste);
    if starts_with(&trim_start_chars(&a1), &fe) {
        replace_first_of(&a1, &fe, &te)
    } else {
        a1
    }
}

fn rename_all_attrs(a: &[char], to_jsx: bool) -> (r: Vec<char>)
    ensures
        r@ == rename_attrs(a@, if to_jsx { attr_table() } else { turned(attr_table()) }),
{
    let table = attr_table_vec();
    let ghost t = if to_jsx {
        attr_table()
    } else {
        turned(attr_table())
    };
    let mut cur = slice(a, 0, a.len());
    let mut i: usize = 0;
    assert(t.subrange(0, t.len() as int) =~= t);
    assert(cur@ =~= a@);
    while i < table.len()
        invariant
            i <= table@.len(),
            table@.len() == attr_table().len(),
            t.len() == table@.len(),
            forall|j: int| 0 <= j < table@.len() ==> (#[trigger] table@[j].0@, table@[j].1@) == attr_table()[j],
            t == (if to_jsx { attr_table() } else { turned(attr_table()) }),
            rename_attrs(a@, t) == rename_attrs(cur@, t.subrange(i as int, t.len() as int)),
        decreases table.len() - i,
    {
        let (h, j) = table[i];
        let next = if to_jsx {
            rename_one_attr(&cur, h, j)
        } else {
            rename_one_attr(&cur, j, h)
        };
        proof {
            let rest = t.subrange(i as int, t.len() as int);
            assert(rest[0] == t[i as int]);
            assert(rest.drop_first() =~= t.subrange(i + 1, t.len() as int));
            assert(table@[i as int].0@ == h@ && table@[i as int].1@ == j@);
        }
        cur = next;
        i += 1;
    }
    assert(t.subrange(i as int, t.len() as int) =~= Seq::<(Seq<char>, Seq<char>)>::empty());
    cur
}

fn value_end_at(s: &[char], from: usize) -> (r: usize)
    requires
        from <= s@.len(),
    ensures
        r as int == value_end(s@, from as int),
        from <= r <= s@.len(),
{
    proof {
        lemma_value_end(s@, from as int);
    }
    let mut i = from;
    while i < s.len() && !is_ascii_whitespace(s[i]) && s[i] != '>'
        invariant
            from <= i <= s@.len(),
            value_end(s@, from as int) == value_end(s@, i as int),
        decreases s.len() - i,
    {
        i += 1;
    }
    i
}

fn read_attr_value(s: &[char]) -> (r: (Vec<char>, Vec<char>))
    ensures
        (r.0@, r.1@) == attr_value(s@),
{
    let t = trim_start_chars(s);
    if t.len() == 0 {
        return (Vec::new(), Vec::new());
    }
    let q = t[0];
    if q == '"' || q == '\'' {
        proof {
            lemma_find_char_from(t@, q, 1);
        }
        match find_char_at(&t, q, 1) {
            Some(e) => (slice(&t, 1, e), slice(&t, e + 1, t.len())),
            None => (Vec::new(), t),
        }
    } else {
        let end = value_end_at(&t, 0);
        (slice(&t, 0, end), slice(&t, end, t.len()))
    }
}

fn restyle_attrs(a: &[char], jsx: bool) -> (r: Vec<char>)
    ensures
        r@ == restyle(a@, jsx),
{
    let len = a.len();
    let key = to_chars("style=");
    proof {
        reveal_strlit("style=");
        lemma_find_from(a@, key@, 0);
    }
    match find_at(a, &key, 0) {
        None => slice(a, 0, a.len()),
        Some(pos) => {
            assert(pos + key@.len() <= a@.len());
            let (v, rest) = read_attr_value(&slice(a, pos + 6, len));
            let nv = if jsx {
                convert_style_to_jsx(&v)
            } else {
                convert_style_to_html(&v)
            };
            let mut out = slice(a, 0, pos);
            push_str(&mut out, "style=\"");
            push_all(&mut out, &nv);
            push_str(&mut out, "\"");
            push_all(&mut out, &rest);
            out
        },
    }
}

fn transform(pass: TagPass, name: &[char], attrs: &[char], sc: bool) -> (r: Vec<char>)
    ensures
        r@ == spec_transform(pass, name@, attrs@, if sc { "/>"@ } else { ">"@ }),
{
    let void = void_tag(&lowercase(name));
    let mut out = to_chars("<");
    push_all(&mut out, name);
    let mid = match pass {
        TagPass::VoidToJsx => if void {
            strip_trailing_chars(attrs, '/')
        } else {
            slice(attrs, 0, attrs.len())
        },
        TagPass::VoidToHtml => if void {
            trim_end_chars(&strip_trailing_chars(attrs, '/'))
        } else {
            slice(attrs, 0, attrs.len())
        },
        TagPass::AttrsToJsx => rename_all_attrs(attrs, true),
        TagPass::AttrsToHtml => rename_all_attrs(attrs, false),
        TagPass::StyleToJsx => restyle_attrs(attrs, true),
        TagPass::StyleToHtml => restyle_attrs(attrs, false),
    };
    push_all(&mut out, &mid);
    let close = match pass {
        TagPass::VoidToJsx => if void {
            " />"
        } else if sc {
            "/>"
        } else {
            ">"
        },
        TagPass::VoidToHtml => ">",
        _ => if sc {
            "/>"
        } else {
            ">"
        },
    };
    push_str(&mut out, close);
    out
}

fn rewrite_tag(pass: TagPass, inner: &[char]) -> (r: Vec<char>)
    ensures
        r@ == spec_rewrite_tag(pass, inner@),
{
    let sc = inner.len() > 0 && inner[inner.len() - 1] == '/';
    let body = if sc {
        slice(inner, 0, inner.len() - 1)
    } else {
        slice(inner, 0, inner.len())
    };
    proof {
        if sc {
            assert(body@ =~= inner@.drop_last());
        } else {
            assert(body@ =~= inner@);
        }
    }
    let ne = ascii_ws_at(&body, 0);
    transform(pass, &slice(&body, 0, ne), &slice(&body, ne, body.len()), sc)
}

/// Applies `pass` to each opening or self-closing tag of `s`.
#[verifier::rlimit(40)]
#[verifier::spinoff_prover]
fn process_tags(s: &[char], pass: TagPass) -> (r: Vec<char>)
    ensures
        r@ == tags_from(s@, 0, pass),
{
    let len = s.len();
    let mut out: Vec<char> = Vec::new();
    let mut i: usize = 0;
    assert(tags_from(s@, 0, pass) =~= out@ + tags_from(s@, 0, pass));
    while i < len
        invariant
            i <= s@.len(),
            len == s@.len(),
            tags_from(s@, 0, pass) == out@ + tags_from(s@, i as int, pass),
        decreases len - i,
    {
        proof {
            lemma_find_char_from(s@, '<', i as int);
        }
        let ghost before = out@;
        match find_char_at(s, '<', i) {
            None => {
                push_all(&mut out, &slice(s, i, len));
                assert(before + tags_from(s@, i as int, pass) =~= out@ + tags_from(s@, len as int, pass));
                i = len;
            },
            Some(lt) => {
                push_all(&mut out, &slice(s, i, lt));
                if lt + 1 >= len {
                    out.push('<');
                    proof {
                        reveal_strlit("<");
                    }
                    assert(before + tags_from(s@, i as int, pass) =~= out@ + tags_from(s@, len as int, pass));
                    i = len;
                } else {
                    let next = s[lt + 1];
                    if next == '/' || next == '!' || next == '?' {
                        proof {
                            lemma_find_char_from(s@, '>', lt as int);
                        }
                        match find_char_at(s, '>', lt) {
                            Some(gt) => {
                                push_all(&mut out, &slice(s, lt, gt + 1));
                                assert(before + tags_from(s@, i as int, pass) =~= out@ + tags_from(s@, gt + 1, pass));
                                i = gt + 1;
                            },
                            None => {
                                push_all(&mut out, &slice(s, lt, len));
                                assert(before + tags_from(s@, i as int, pass) =~= out@ + tags_from(s@, len as int, pass));
                                i = len;
                            },
                        }
                    } else {
                        match tag_end_at(s, lt + 1) {
                            Some(gt) => {
                                let t = rewrite_tag(pass, &slice(s, lt + 1, gt));
                                push_all(&mut out, &t);
                                assert(before + tags_from(s@, i as int, pass) =~= out@ + tags_from(s@, gt + 1, pass));
                                i = gt + 1;
                            },
                            None => {
                                out.push('<');
                                proof {
                                    reveal_strlit("<");
                                }
                                assert(before + tags_from(s@, i as int, pass) =~= out@ + tags_from(s@, lt + 1, pass));
                                i = lt + 1;
                            },
                        }
                    }
                }
            },
        }
    }
    assert(out@ + tags_from(s@, i as int, pass) =~= out@);
    out
}

/// Rewrites HTML markup for JSX in place: comments become `{/* */}`, void elements close
/// with ` />`, known attribute names take their JSX names, and a `style` string becomes
/// a style object.
pub fn html_to_jsx(html: &str) -> (r: String)
    ensures
        r@ == spec_rewrite_html_to_jsx(html@),
{
    let s = to_chars(html);
    proof {
        reveal_strlit("<!--");
    }
    let c = rewrite_comments(&s, "<!--", "-->", "{/* ", " */}");
    let v = process_tags(&c, TagPass::VoidToJsx);
    let a = process_tags(&v, TagPass::AttrsToJsx);
    crate::text::from_chars(&process_tags(&a, TagPass::StyleToJsx))
}

/// Rewrites JSX markup as HTML in place, the other way round from `html_to_jsx`.
pub fn jsx_to_html(jsx: &str) -> (r: String)
    ensures
        r@ == spec_rewrite_jsx_to_html(jsx@),
{
    let s = to_chars(jsx);
    proof {
        reveal_strlit("{/*");
    }
    let c = rewrite_comments(&s, "{/*", "*/}", "<!-- ", " -->");
    let v = process_tags(&c, TagPass::VoidToHtml);
    let a = process_tags(&v, TagPass::AttrsToHtml);
    crate::text::from_chars(&process_tags(&a, TagPass::StyleToHtml))
}

} // verus!
