//! Writing the syntax tree out as Org: keyword lines for the front matter, then blocks.
use vstd::prelude::*;
use crate::ast::node::{
    law_data_read_after_write, entries_view, find_key, lemma_entries_view_index, lemma_nodes_view_index, lemma_values_view_index,
    lookup, lookup_bool, lookup_num, lookup_str, nodes_view, values_view, DataEntry, DataValue, AstNode,
    SNode, SValue,
};
use crate::parser::org::directive::{key_lt, less_key};
use crate::renderer::html_jsx::{spec_jsx_to_html, try_jsx_to_html};
use crate::renderer::mdx_renderer::{indented_lines, lemma_inline_kinds_distinct, opt_nodes};
use crate::text::{
    ascii_lower, dec, dec_chars, eq_str, from_chars, join, join_str, lines, lines_of, lowercase,
    push_all, push_str, repeat, str_lowercase, str_uppercase, to_chars, uppercase, views,
    lemma_views_push,
};
use crate::util::{strip_trailing, strip_trailing_chars};

verus! {

// ------------------------------------------------------------------
// Sorting keys
// ------------------------------------------------------------------

/// The index of the least of `ks[0..i]` (the first one where several are least).
pub open spec fn min_index_upto(ks: Seq<Seq<char>>, i: int) -> int
    decreases i,
{
    if i <= 1 {
        0
    } else {
        let m = min_index_upto(ks, i - 1);
        if key_lt(ks[i - 1], ks[m]) {
            i - 1
        } else {
            m
        }
    }
}

pub proof fn lemma_min_index_upto(ks: Seq<Seq<char>>, i: int)
    requires
        1 <= i <= ks.len(),
    ensures
        0 <= min_index_upto(ks, i) < i,
    decreases i,
{
    if i > 1 {
        lemma_min_index_upto(ks, i - 1);
    }
}

/// The keys in ascending code point order.
pub open spec fn sort_keys(ks: Seq<Seq<char>>) -> Seq<Seq<char>>
    decreases ks.len(),
{
    if ks.len() == 0 {
        Seq::empty()
    } else {
        let m = min_index_upto(ks, ks.len() as int);
        proof {
            lemma_min_index_upto(ks, ks.len() as int);
        }
        seq![ks[m]] + sort_keys(ks.remove(m))
    }
}

// ------------------------------------------------------------------
// Front matter
// ------------------------------------------------------------------

/// The keys written first, in this order.
pub open spec fn org_keys() -> Seq<Seq<char>> {
    seq![
        "title"@, "date"@, "updated"@, "abbrlink"@, "author"@, "email"@, "options"@, "tags"@,
        "language"@, "alias"@,
    ]
}

/// `a` and `b` are equal when ASCII letters are compared without case.
pub open spec fn eq_ignore_ascii_case(a: Seq<char>, b: Seq<char>) -> bool {
    a.len() == b.len() && forall|i: int| 0 <= i < a.len() ==> ascii_lower(#[trigger] a[i]) == ascii_lower(b[i])
}

/// The string items of a list.
pub open spec fn str_items(l: Seq<SValue>) -> Seq<Seq<char>>
    decreases l.len(),
{
    if l.len() == 0 {
        Seq::empty()
    } else {
        str_items(l.drop_last()) + match l[l.len() - 1] {
            SValue::Str(s) => seq![s],
            _ => Seq::empty(),
        }
    }
}

/// One `#+KEY: item` line per item.
pub open spec fn keyword_lines(key: Seq<char>, items: Seq<Seq<char>>) -> Seq<char>
    decreases items.len(),
{
    if items.len() == 0 {
        Seq::empty()
    } else {
        keyword_lines(key, items.drop_last()) + "#+"@ + key + ": "@ + items[items.len() - 1] + "\n"@
    }
}

/// One front matter entry as keyword lines: a string on one line, the tags joined by
/// commas on one line, other lists one line per item; other values write nothing.
pub open spec fn org_fm_entry(key: Seq<char>, v: SValue) -> Seq<char> {
    let up = str_uppercase(key);
    match v {
        SValue::Str(s) => "#+"@ + up + ": "@ + s + "\n"@,
        SValue::List(l) => if eq_ignore_ascii_case(key, "tags"@) {
            "#+"@ + up + ": "@ + join(str_items(l), ", "@) + "\n"@
        } else {
            keyword_lines(up, str_items(l))
        },
        _ => Seq::empty(),
    }
}

/// The `options` object under `org`, when there is one.
pub open spec fn org_options(d: Seq<(Seq<char>, SValue)>) -> Option<Seq<(Seq<char>, SValue)>> {
    match lookup(d, "org"@) {
        Some(SValue::Object(om)) => match lookup(om, "options"@) {
            Some(SValue::Object(o)) => Some(o),
            _ => None,
        },
        _ => None,
    }
}

/// One option as `key:value` (`superscript` as `^`, booleans as `t` and `nil`), for
/// boolean and string values other than `mdx`.
pub open spec fn option_part(k: Seq<char>, v: SValue) -> Option<Seq<char>> {
    let ok = if k == "superscript"@ {
        "^"@
    } else {
        k
    };
    if k == "mdx"@ {
        None
    } else {
        match v {
            SValue::Bool(b) => Some(ok + ":"@ + if b {
                "t"@
            } else {
                "nil"@
            }),
            SValue::Str(s) => Some(ok + ":"@ + s),
            _ => None,
        }
    }
}

/// The option parts by key, in key order, a later entry for a key replacing an earlier
/// one: `k` with part `p` put into `m`.
pub open spec fn part_insert(
    m: Seq<(Seq<char>, Option<Seq<char>>)>,
    k: Seq<char>,
    p: Option<Seq<char>>,
) -> Seq<(Seq<char>, Option<Seq<char>>)>
    decreases m.len(),
{
    if m.len() == 0 {
        seq![(k, p)]
    } else if m[0].0 == k {
        m.update(0, (k, p))
    } else if key_lt(k, m[0].0) {
        seq![(k, p)] + m
    } else {
        seq![m[0]] + part_insert(m.drop_first(), k, p)
    }
}

/// The options object's parts by key, in the order of its keys (the order a JSON object
/// keeps them in).
pub open spec fn parts_by_key(o: Seq<(Seq<char>, SValue)>) -> Seq<(Seq<char>, Option<Seq<char>>)>
    decreases o.len(),
{
    if o.len() == 0 {
        Seq::empty()
    } else {
        let e = o[o.len() - 1];
        part_insert(parts_by_key(o.drop_last()), e.0, option_part(e.0, e.1))
    }
}

/// The parts that are written, in order.
pub open spec fn present_parts(m: Seq<(Seq<char>, Option<Seq<char>>)>) -> Seq<Seq<char>>
    decreases m.len(),
{
    if m.len() == 0 {
        Seq::empty()
    } else {
        present_parts(m.drop_last()) + match m[m.len() - 1].1 {
            Some(p) => seq![p],
            None => Seq::empty(),
        }
    }
}

/// The parts of the options, in the order of their keys.
pub open spec fn option_parts(o: Seq<(Seq<char>, SValue)>) -> Seq<Seq<char>> {
    present_parts(parts_by_key(o))
}

/// The `#+OPTIONS:` lines: the options on one line, the `mdx` option on its own; without
/// an options object, the default line.
pub open spec fn options_out(d: Seq<(Seq<char>, SValue)>) -> Seq<char> {
    match org_options(d) {
        Some(o) => {
            let parts = option_parts(o);
            (if parts.len() > 0 {
                "#+OPTIONS: "@ + join(parts, " "@) + "\n"@
            } else {
                Seq::empty()
            }) + match lookup_str(o, "mdx"@) {
                Some(m) => "#+OPTIONS: mdx: "@ + m + "\n"@,
                None => Seq::empty(),
            }
        },
        None => "#+OPTIONS: num:nil ^:nil\n"@,
    }
}

/// The entries under `keys`, in the order of `keys`.
pub open spec fn org_fm_ordered(d: Seq<(Seq<char>, SValue)>, keys: Seq<Seq<char>>) -> Seq<char>
    decreases keys.len(),
{
    if keys.len() == 0 {
        Seq::empty()
    } else {
        let k = keys[keys.len() - 1];
        org_fm_ordered(d, keys.drop_last()) + if k == "options"@ {
            options_out(d)
        } else {
            match lookup(d, k) {
                Some(v) => org_fm_entry(k, v),
                None => Seq::empty(),
            }
        }
    }
}

/// The keys of `d` whose lower case is not among the keys written first.
pub open spec fn other_keys(d: Seq<(Seq<char>, SValue)>) -> Seq<Seq<char>>
    decreases d.len(),
{
    if d.len() == 0 {
        Seq::empty()
    } else {
        let k = d[d.len() - 1].0;
        other_keys(d.drop_last()) + if org_keys().contains(str_lowercase(k)) {
            Seq::empty()
        } else {
            seq![k]
        }
    }
}

/// The entries under `ks`, in that order.
pub open spec fn org_fm_keys(d: Seq<(Seq<char>, SValue)>, ks: Seq<Seq<char>>) -> Seq<char>
    decreases ks.len(),
{
    if ks.len() == 0 {
        Seq::empty()
    } else {
        org_fm_keys(d, ks.drop_last()) + match lookup(d, ks[ks.len() - 1]) {
            Some(v) => org_fm_entry(ks[ks.len() - 1], v),
            None => Seq::empty(),
        }
    }
}

// ------------------------------------------------------------------
// Inline content
// ------------------------------------------------------------------

/// An inline node as Org markup.
pub open spec fn org_inline(n: SNode) -> Seq<char>
    decreases n, 1int,
{
    let inner = match n.children {
        Some(c) => org_inline_seq(c),
        None => Seq::empty(),
    };
    let url = match lookup_str(n.data, "url"@) {
        Some(u) => u,
        None => Seq::empty(),
    };
    if n.kind == "text"@ {
        match n.value {
            Some(v) => v,
            None => Seq::empty(),
        }
    } else if n.kind == "strong"@ {
        "*"@ + inner + "*"@
    } else if n.kind == "emphasis"@ {
        "/"@ + inner + "/"@
    } else if n.kind == "underline"@ {
        "_"@ + inner + "_"@
    } else if n.kind == "delete"@ {
        "+"@ + inner + "+"@
    } else if n.kind == "inlineCode"@ {
        match n.value {
            Some(v) => "~"@ + v + "~"@,
            None => Seq::empty(),
        }
    } else if n.kind == "link"@ {
        "[["@ + url + "]["@ + inner + "]]"@
    } else if n.kind == "image"@ {
        "[[file:"@ + url + "]["@ + (match lookup_str(n.data, "alt"@) {
            Some(a) => a,
            None => Seq::empty(),
        }) + "]]"@
    } else if n.kind == "break"@ {
        "\\\\\n"@
    } else {
        Seq::empty()
    }
}

pub open spec fn org_inline_seq(ns: Seq<SNode>) -> Seq<char>
    decreases ns, 0int,
{
    if ns.len() == 0 {
        Seq::empty()
    } else {
        org_inline_seq(ns.drop_last()) + org_inline(ns[ns.len() - 1])
    }
}

pub open spec fn org_inlines(children: Option<Seq<SNode>>) -> Seq<char> {
    match children {
        Some(c) => org_inline_seq(c),
        None => Seq::empty(),
    }
}

// ------------------------------------------------------------------
// Blocks
// ------------------------------------------------------------------

/// Both parts written, or nothing where either never ends.
pub open spec fn cat(a: Option<Seq<char>>, b: Option<Seq<char>>) -> Option<Seq<char>> {
    match a {
        Some(x) => match b {
            Some(y) => Some(x + y),
            None => None,
        },
        None => None,
    }
}

/// The lines of `s` without the empty lines at the end.
pub open spec fn drop_empty_tail(ls: Seq<Seq<char>>) -> Seq<Seq<char>>
    decreases ls.len(),
{
    if ls.len() > 0 && ls[ls.len() - 1].len() == 0 {
        drop_empty_tail(ls.drop_last())
    } else {
        ls
    }
}

pub open spec fn spec_item_lines(s: Seq<char>) -> Seq<Seq<char>> {
    drop_empty_tail(lines(s))
}

/// A list item from its written blocks: the marker, the first line, the other lines indented.
pub open spec fn org_item_text(body: Seq<char>, marker: Seq<char>, ind: Seq<char>) -> Seq<char> {
    let ls = spec_item_lines(body);
    if ls.len() > 0 {
        marker + ls[0] + "\n"@ + indented_lines(ls.drop_first(), ind)
    } else {
        marker + "\n"@
    }
}

pub open spec fn org_marker(i: int, ordered: bool, ind: Seq<char>) -> Seq<char> {
    if ordered {
        ind + dec((i + 1) as nat) + ". "@
    } else {
        ind + "- "@
    }
}

/// Each line followed by a newline, with `prefix` in front.
pub open spec fn prefixed_lines(ls: Seq<Seq<char>>, prefix: Seq<char>) -> Seq<char>
    decreases ls.len(),
{
    if ls.len() == 0 {
        Seq::empty()
    } else {
        prefixed_lines(ls.drop_last(), prefix) + prefix + ls[ls.len() - 1] + "\n"@
    }
}

/// The string items of the `tags` list of a node.
pub open spec fn node_tags(n: SNode) -> Seq<Seq<char>> {
    match lookup(n.data, "tags"@) {
        Some(SValue::List(l)) => str_items(l),
        _ => Seq::empty(),
    }
}

/// A code block: without a language and on one line as `: ` lines; otherwise as a source
/// or example block.
pub open spec fn org_code(n: SNode) -> Seq<char> {
    let val = match n.value {
        Some(v) => v,
        None => Seq::empty(),
    };
    let lang = lookup_str(n.data, "lang"@);
    if lang is None && !val.contains('\n') {
        prefixed_lines(lines(val), ": "@) + "\n"@
    } else {
        let example = lookup_str(n.data, "block_type"@) == Some("example"@);
        (match lang {
            Some(l) => "#+BEGIN_SRC "@ + l + "\n"@,
            None => "#+BEGIN_EXAMPLE\n"@,
        }) + prefixed_lines(lines(val), if example {
            Seq::empty()
        } else {
            "  "@
        }) + (if lang is Some {
            "#+END_SRC\n\n"@
        } else {
            "#+END_EXAMPLE\n\n"@
        })
    }
}

/// A block node as Org; `html` tells whether JSX is written back as HTML. `None` where
/// converting a fragment never ends.
pub open spec fn org_node(n: SNode, html: bool) -> Option<Seq<char>>
    decreases n, 3int,
{
    if n.kind == "heading"@ {
        let depth = match lookup_num(n.data, "depth"@) {
            Some(d) => d as usize as nat,
            None => 1,
        };
        let tags = node_tags(n);
        Some(repeat('*', depth) + " "@ + org_inlines(n.children) + "\n\n"@ + if tags.len() > 0 {
            " :"@ + join(tags, ":"@) + ":\n"@
        } else {
            Seq::empty()
        })
    } else if n.kind == "paragraph"@ {
        let c = org_inlines(n.children);
        Some(if c.len() == 0 {
            Seq::empty()
        } else if lookup_bool(n.data, "hardLineBreak"@) == Some(true) {
            c + "\\\\\n\n"@
        } else {
            c + "\n\n"@
        })
    } else if n.kind == "list"@ {
        org_list(n, 0, html)
    } else if n.kind == "code"@ {
        Some(org_code(n))
    } else if n.kind == "blockquote"@ {
        cat(cat(Some("#+begin_quote\n"@), match n.children {
            Some(c) => org_nodes(c, html),
            None => Some(Seq::empty()),
        }), Some("#+end_quote\n\n"@))
    } else if n.kind == "thematicBreak"@ {
        Some("----\n\n"@)
    } else if n.kind == "blankLine"@ {
        Some("\n"@)
    } else if n.kind == "html"@ {
        match n.value {
            Some(v) => if html {
                match spec_jsx_to_html(v) {
                    Some(h) => Some("#+HTML: "@ + h + "\n\n"@),
                    None => None,
                }
            } else {
                Some("#+JSX: "@ + v + "\n\n"@)
            },
            None => Some(Seq::empty()),
        }
    } else if n.kind == "export"@ {
        let lang = match lookup_str(n.data, "lang"@) {
            Some(l) => l,
            None => Seq::empty(),
        };
        Some("#+begin_export "@ + lang + "\n"@ + (match n.value {
            Some(v) => prefixed_lines(lines(v), Seq::empty()),
            None => Seq::empty(),
        }) + "#+end_export\n\n"@)
    } else {
        Some(Seq::empty())
    }
}

/// A list indented by `indent` levels, then a blank line.
pub open spec fn org_list(n: SNode, indent: nat, html: bool) -> Option<Seq<char>>
    decreases n, 2int,
{
    let ordered = lookup_bool(n.data, "ordered"@) == Some(true);
    cat(match n.children {
        Some(items) => org_items(items, repeat(' ', 2 * indent), ordered, html),
        None => Some(Seq::empty()),
    }, Some("\n"@))
}

pub open spec fn org_items(items: Seq<SNode>, ind: Seq<char>, ordered: bool, html: bool) -> Option<Seq<char>>
    decreases items, 1int,
{
    if items.len() == 0 {
        Some(Seq::empty())
    } else {
        let it = items[items.len() - 1];
        let body = match it.children {
            Some(c) => org_nodes(c, html),
            None => Some(Seq::empty()),
        };
        cat(org_items(items.drop_last(), ind, ordered, html), match body {
            Some(b) => Some(org_item_text(b, org_marker(items.len() - 1, ordered, ind), ind)),
            None => None,
        })
    }
}

pub open spec fn org_nodes(ns: Seq<SNode>, html: bool) -> Option<Seq<char>>
    decreases ns, 0int,
{
    if ns.len() == 0 {
        Some(Seq::empty())
    } else {
        cat(org_nodes(ns.drop_last(), html), org_node(ns[ns.len() - 1], html))
    }
}

/// A document as Org: keyword lines and a blank line when the root has data, then its
/// blocks, ending in exactly one newline; `None` where converting a fragment never ends.
pub open spec fn spec_render_org(root: SNode) -> Option<Seq<char>> {
    let d = root.data;
    let fm = if d.len() > 0 {
        org_fm_ordered(d, org_keys()) + org_fm_keys(d, sort_keys(other_keys(d))) + "\n"@
    } else {
        Seq::empty()
    };
    let html = match org_options(d) {
        Some(o) => lookup_str(o, "mdx"@) == Some("html"@),
        None => false,
    };
    match cat(Some(fm), match root.children {
        Some(c) => org_nodes(c, html),
        None => Some(Seq::empty()),
    }) {
        Some(x) => Some(strip_trailing(x, '\n') + "\n"@),
        None => None,
    }
}


/// Whatever the tree, the Org text ends in exactly one newline.
pub proof fn law_org_ends_with_one_newline(root: SNode)
    ensures
        spec_render_org(root) matches Some(out) ==> {
            &&& out.len() >= 1
            &&& out.last() == '\n'
            &&& (out.len() == 1 || out[out.len() - 2] != '\n')
        },
{
    reveal_strlit("\n");
    let d = root.data;
    let fm = if d.len() > 0 {
        org_fm_ordered(d, org_keys()) + org_fm_keys(d, sort_keys(other_keys(d))) + "\n"@
    } else {
        Seq::empty()
    };
    let html = match org_options(d) {
        Some(o) => lookup_str(o, "mdx"@) == Some("html"@),
        None => false,
    };
    if let Some(x) = cat(Some(fm), match root.children {
        Some(c) => org_nodes(c, html),
        None => Some(Seq::empty()),
    }) {
        let t = strip_trailing(x, '\n');
        crate::util::lemma_strip_trailing_end(x, '\n');
        let out = t + "\n"@;
        assert(out.last() == '\n');
        assert(out.len() >= 2 ==> out[out.len() - 2] == t.last());
    }
}

// ------------------------------------------------------------------
// Writing
// ------------------------------------------------------------------

fn min_index(ks: &Vec<Vec<char>>) -> (r: usize)
    requires
        ks@.len() > 0,
    ensures
        r as int == min_index_upto(views(ks@), ks@.len() as int),
        r < ks@.len(),
{
    let ghost v = views(ks@);
    let mut m: usize = 0;
    let mut j: usize = 1;
    while j < ks.len()
        invariant
            1 <= j <= ks@.len(),
            v == views(ks@),
            m as int == min_index_upto(v, j as int),
            m < j,
        decreases ks.len() - j,
    {
        if less_key(&ks[j], &ks[m]) {
            m = j;
        }
        j += 1;
    }
    m
}

/// The keys in ascending code point order.
fn sorted_keys(ks: Vec<Vec<char>>) -> (r: Vec<Vec<char>>)
    ensures
        views(r@) == sort_keys(views(ks@)),
{
    let ghost orig = views(ks@);
    let mut rest = ks;
    let mut out: Vec<Vec<char>> = Vec::new();
    assert(views(out@) + sort_keys(views(rest@)) =~= sort_keys(orig));
    while rest.len() > 0
        invariant
            views(out@) + sort_keys(views(rest@)) == sort_keys(orig),
        decreases rest@.len(),
    {
        let m = min_index(&rest);
        proof {
            lemma_min_index_upto(views(rest@), rest@.len() as int);
        }
        let ghost before = views(out@);
        let ghost rv = views(rest@);
        let k = rest.remove(m);
        proof {
            assert(views(rest@) =~= rv.remove(m as int));
            lemma_views_push(out@, k);
            assert(before.push(k@) + sort_keys(views(rest@)) =~= before + (seq![rv[m as int]] + sort_keys(rv.remove(m as int))));
        }
        out.push(k);
    }
    assert(views(out@) + sort_keys(views(rest@)) =~= views(out@));
    out
}

fn str_items_of(l: &Vec<DataValue>) -> (r: Vec<Vec<char>>)
    ensures
        views(r@) == str_items(values_view(l@)),
{
    let ghost v = values_view(l@);
    proof {
        lemma_values_view_index(l@);
    }
    let mut out: Vec<Vec<char>> = Vec::new();
    let mut i: usize = 0;
    while i < l.len()
        invariant
            i <= l@.len(),
            v == values_view(l@),
            v.len() == l@.len(),
            forall|j: int| 0 <= j < l@.len() ==> #[trigger] v[j] == l@[j]@,
            views(out@) == str_items(v.take(i as int)),
        decreases l.len() - i,
    {
        assert(v.take(i + 1).drop_last() =~= v.take(i as int));
        match &l[i] {
            DataValue::Str(s) => {
                let c = to_chars(s.as_str());
                proof {
                    lemma_views_push(out@, c);
                }
                out.push(c);
                assert(views(out@) =~= str_items(v.take(i + 1)));
            },
            _ => {
                assert(views(out@) =~= str_items(v.take(i + 1)));
            },
        }
        i += 1;
    }
    assert(v.take(l@.len() as int) =~= v);
    out
}

fn is_tags_key(k: &[char]) -> (r: bool)
    ensures
        r == eq_ignore_ascii_case(k@, "tags"@),
{
    let t = to_chars("tags");
    if k.len() != t.len() {
        return false;
    }
    let mut i: usize = 0;
    while i < k.len()
        invariant
            i <= k@.len(),
            k@.len() == t@.len(),
            t@ == "tags"@,
            forall|j: int| 0 <= j < i ==> ascii_lower(#[trigger] k@[j]) == ascii_lower(t@[j]),
        decreases k.len() - i,
    {
        if crate::text::to_ascii_lower(k[i]) != crate::text::to_ascii_lower(t[i]) {
            return false;
        }
        i += 1;
    }
    true
}

fn org_fm_entry_out(key: &[char], v: &DataValue) -> (r: Vec<char>)
    ensures
        r@ == org_fm_entry(key@, v@),
{
    let up = uppercase(key);
    let mut out: Vec<char> = Vec::new();
    match v {
        DataValue::Str(s) => {
            push_str(&mut out, "#+");
            push_all(&mut out, &up);
            push_str(&mut out, ": ");
            push_str(&mut out, s.as_str());
            push_str(&mut out, "\n");
        },
        DataValue::List(l) => {
            let items = str_items_of(l);
            if is_tags_key(key) {
                push_str(&mut out, "#+");
                push_all(&mut out, &up);
                push_str(&mut out, ": ");
                push_all(&mut out, &join_str(&items, ", "));
                push_str(&mut out, "\n");
            } else {
                let ghost iv = views(items@);
                let mut i: usize = 0;
                while i < items.len()
                    invariant
                        i <= items@.len(),
                        iv == views(items@),
                        out@ == keyword_lines(up@, iv.take(i as int)),
                    decreases items.len() - i,
                {
                    assert(iv.take(i + 1).drop_last() =~= iv.take(i as int));
                    push_str(&mut out, "#+");
                    push_all(&mut out, &up);
                    push_str(&mut out, ": ");
                    push_all(&mut out, &items[i]);
                    push_str(&mut out, "\n");
                    i += 1;
                }
                assert(iv.take(items@.len() as int) =~= iv);
            }
        },
        _ => {},
    }
    out
}

/// The `options` object under `org`, when there is one.
fn org_options_of(d: &Vec<DataEntry>) -> (r: Option<&Vec<DataEntry>>)
    ensures
        match r {
            Some(o) => org_options(entries_view(d@)) == Some(entries_view(o@)),
            None => org_options(entries_view(d@)) is None,
        },
{
    proof {
        lemma_entries_view_index(d@);
    }
    match find_key(d, "org") {
        Some(i) => match &d[i].value {
            DataValue::Object(om) => {
                proof {
                    lemma_entries_view_index(om@);
                }
                match find_key(om, "options") {
                    Some(j) => match &om[j].value {
                        DataValue::Object(o) => Some(o),
                        _ => None,
                    },
                    None => None,
                }
            },
            _ => None,
        },
        None => None,
    }
}

fn option_part_of(k: &[char], v: &DataValue) -> (r: Option<Vec<char>>)
    ensures
        match r {
            Some(p) => option_part(k@, v@) == Some(p@),
            None => option_part(k@, v@) is None,
        },
{
    if eq_str(k, "mdx") {
        return None;
    }
    let mut out = if eq_str(k, "superscript") {
        to_chars("^")
    } else {
        crate::text::slice(k, 0, k.len())
    };
    push_str(&mut out, ":");
    match v {
        DataValue::Bool(b) => {
            if *b {
                push_str(&mut out, "t");
            } else {
                push_str(&mut out, "nil");
            }
            Some(out)
        },
        DataValue::Str(s) => {
            push_str(&mut out, s.as_str());
            Some(out)
        },
        _ => None,
    }
}

pub open spec fn opt_chars(p: Option<Vec<char>>) -> Option<Seq<char>> {
    match p {
        Some(x) => Some(x@),
        None => None,
    }
}

/// The option parts by key, as the mathematical form.
pub open spec fn keyed_view(m: Seq<(Vec<char>, Option<Vec<char>>)>) -> Seq<(Seq<char>, Option<Seq<char>>)> {
    m.map_values(|e: (Vec<char>, Option<Vec<char>>)| (e.0@, opt_chars(e.1)))
}

fn copy_chars(v: &Vec<char>) -> (r: Vec<char>)
    ensures
        r@ == v@,
{
    let mut out: Vec<char> = Vec::new();
    let mut i: usize = 0;
    while i < v.len()
        invariant
            i <= v@.len(),
            out@ == v@.take(i as int),
        decreases v.len() - i,
    {
        out.push(v[i]);
        assert(out@ =~= v@.take(i + 1));
        i += 1;
    }
    assert(v@.take(v@.len() as int) =~= v@);
    out
}

proof fn lemma_part_insert_at(m: Seq<(Seq<char>, Option<Seq<char>>)>, k: Seq<char>, p: Option<Seq<char>>, i: int)
    requires
        0 <= i <= m.len(),
        forall|j: int| 0 <= j < i ==> m[j].0 != k && !key_lt(k, m[j].0),
    ensures
        i < m.len() && m[i].0 == k ==> part_insert(m, k, p) == m.update(i, (k, p)),
        i < m.len() && m[i].0 != k && key_lt(k, m[i].0) ==> part_insert(m, k, p) == m.insert(i, (k, p)),
        i == m.len() ==> part_insert(m, k, p) == m.push((k, p)),
    decreases i,
{
    if i > 0 {
        lemma_part_insert_at(m.drop_first(), k, p, i - 1);
        if i < m.len() {
            assert(seq![m[0]] + m.drop_first().update(i - 1, (k, p)) =~= m.update(i, (k, p)));
        }
        assert(seq![m[0]] + m.drop_first().insert(i - 1, (k, p)) =~= m.insert(i, (k, p)));
        assert(seq![m[0]] + m.drop_first().push((k, p)) =~= m.push((k, p)));
    } else {
        assert(seq![(k, p)] + m =~= m.insert(0, (k, p)));
        if m.len() == 0 {
            assert(seq![(k, p)] =~= m.push((k, p)));
        }
    }
}

/// Puts `k` with its part into the parts kept in key order.
fn part_insert_vec(m: &mut Vec<(Vec<char>, Option<Vec<char>>)>, k: Vec<char>, p: Option<Vec<char>>)
    ensures
        keyed_view(final(m)@) == part_insert(keyed_view(old(m)@), k@, opt_chars(p)),
{
    let ghost d = keyed_view(m@);
    let ghost pv: Option<Seq<char>> = opt_chars(p);
    let mut i: usize = 0;
    while i < m.len()
        invariant
            i <= m@.len(),
            d == keyed_view(m@),
            m@ == old(m)@,
            d.len() == m@.len(),
            forall|j: int| 0 <= j < i ==> d[j].0 != k@ && !key_lt(k@, d[j].0),
            pv == opt_chars(p),
        decreases m.len() - i,
    {
        assert(d[i as int].0 == m@[i as int].0@);
        if crate::text::eq(&m[i].0, &k) {
            proof {
                lemma_part_insert_at(d, k@, pv, i as int);
            }
            let ghost e = (k, p);
            m.set(i, (k, p));
            assert(m@ == old(m)@.update(i as int, e));
            assert forall|j: int| 0 <= j < m@.len() implies #[trigger] keyed_view(m@)[j] == d.update(
                i as int,
                (k@, pv),
            )[j] by {
                if j != i {
                    assert(m@[j] == old(m)@[j]);
                    assert(d[j] == keyed_view(old(m)@)[j]);
                } else {
                    assert(m@[j] == e);
                    assert(opt_chars(e.1) == pv);
                }
            }
            assert(keyed_view(m@) =~= d.update(i as int, (k@, pv)));
            return;
        }
        if less_key(&k, &m[i].0) {
            proof {
                lemma_part_insert_at(d, k@, pv, i as int);
            }
            let ghost e = (k, p);
            m.insert(i, (k, p));
            assert(m@ == old(m)@.insert(i as int, e));
            assert forall|j: int| 0 <= j < m@.len() implies #[trigger] keyed_view(m@)[j] == d.insert(
                i as int,
                (k@, pv),
            )[j] by {
                if j < i {
                    assert(m@[j] == old(m)@[j]);
                    assert(d[j] == keyed_view(old(m)@)[j]);
                } else if j > i {
                    assert(m@[j] == old(m)@[j - 1]);
                    assert(d[j - 1] == keyed_view(old(m)@)[j - 1]);
                } else {
                    assert(m@[j] == e);
                    assert(opt_chars(e.1) == pv);
                }
            }
            assert(keyed_view(m@) =~= d.insert(i as int, (k@, pv)));
            return;
        }
        i += 1;
    }
    proof {
        lemma_part_insert_at(d, k@, pv, i as int);
    }
    let ghost e = (k, p);
    m.push((k, p));
    assert(m@ == old(m)@.push(e));
    assert forall|j: int| 0 <= j < m@.len() implies #[trigger] keyed_view(m@)[j] == d.push((k@, pv))[j] by {
        if j < d.len() {
            assert(m@[j] == old(m)@[j]);
            assert(d[j] == keyed_view(old(m)@)[j]);
        } else {
            assert(m@[j] == e);
            assert(opt_chars(e.1) == pv);
        }
    }
    assert(keyed_view(m@) =~= d.push((k@, pv)));
}

fn options_lines(d: &Vec<DataEntry>) -> (r: Vec<char>)
    ensures
        r@ == options_out(entries_view(d@)),
{
    match org_options_of(d) {
        Some(o) => {
            let ghost ov = entries_view(o@);
            proof {
                lemma_entries_view_index(o@);
            }
            let mut keyed: Vec<(Vec<char>, Option<Vec<char>>)> = Vec::new();
            let mut i: usize = 0;
            assert(keyed_view(keyed@) =~= parts_by_key(ov.take(0)));
            while i < o.len()
                invariant
                    i <= o@.len(),
                    ov == entries_view(o@),
                    ov.len() == o@.len(),
                    forall|j: int| 0 <= j < o@.len() ==> #[trigger] ov[j] == (o@[j].key@, o@[j].value@),
                    keyed_view(keyed@) == parts_by_key(ov.take(i as int)),
                decreases o.len() - i,
            {
                assert(ov.take(i + 1).drop_last() =~= ov.take(i as int));
                let k = to_chars(o[i].key.as_str());
                let p = option_part_of(&k, &o[i].value);
                part_insert_vec(&mut keyed, k, p);
                i += 1;
            }
            assert(ov.take(o@.len() as int) =~= ov);
            let ghost kv = keyed_view(keyed@);
            let mut parts: Vec<Vec<char>> = Vec::new();
            let mut j: usize = 0;
            while j < keyed.len()
                invariant
                    j <= keyed@.len(),
                    kv == keyed_view(keyed@),
                    views(parts@) == present_parts(kv.take(j as int)),
                decreases keyed.len() - j,
            {
                assert(kv.take(j + 1).drop_last() =~= kv.take(j as int));
                match &keyed[j].1 {
                    Some(p) => {
                        let pc = copy_chars(p);
                        proof {
                            lemma_views_push(parts@, pc);
                        }
                        parts.push(pc);
                        assert(views(parts@) =~= present_parts(kv.take(j + 1)));
                    },
                    None => {
                        assert(views(parts@) =~= present_parts(kv.take(j + 1)));
                    },
                }
                j += 1;
            }
            assert(kv.take(keyed@.len() as int) =~= kv);
            assert(ov.take(o@.len() as int) =~= ov);
            let mut out: Vec<char> = Vec::new();
            if parts.len() > 0 {
                push_str(&mut out, "#+OPTIONS: ");
                push_all(&mut out, &join_str(&parts, " "));
                push_str(&mut out, "\n");
            }
            match find_key(o, "mdx") {
                Some(j) => match &o[j].value {
                    DataValue::Str(m) => {
                        push_str(&mut out, "#+OPTIONS: mdx: ");
                        push_str(&mut out, m.as_str());
                        push_str(&mut out, "\n");
                    },
                    _ => {},
                },
                None => {},
            }
            out
        },
        None => to_chars("#+OPTIONS: num:nil ^:nil\n"),
    }
}

fn org_key_list() -> (r: Vec<&'static str>)
    ensures
        r@.len() == org_keys().len(),
        forall|i: int| 0 <= i < r@.len() ==> #[trigger] r@[i]@ == org_keys()[i],
{
    let mut v: Vec<&'static str> = Vec::new();
    v.push("title");
    v.push("date");
    v.push("updated");
    v.push("abbrlink");
    v.push("author");
    v.push("email");
    v.push("options");
    v.push("tags");
    v.push("language");
    v.push("alias");
    v
}

fn is_org_key(k: &[char]) -> (r: bool)
    ensures
        r == org_keys().contains(k@),
{
    let keys = org_key_list();
    let ghost ks = org_keys();
    let mut i: usize = 0;
    while i < keys.len()
        invariant
            i <= keys@.len(),
            ks == org_keys(),
            keys@.len() == ks.len(),
            forall|j: int| 0 <= j < keys@.len() ==> #[trigger] keys@[j]@ == ks[j],
            forall|j: int| 0 <= j < i ==> ks[j] != k@,
        decreases keys.len() - i,
    {
        if eq_str(k, keys[i]) {
            assert(ks[i as int] == k@);
            return true;
        }
        i += 1;
    }
    false
}

/// The front matter as keyword lines (without the blank line after it).
fn front_matter_org(d: &Vec<DataEntry>) -> (r: Vec<char>)
    ensures
        r@ == org_fm_ordered(entries_view(d@), org_keys()) + org_fm_keys(entries_view(d@), sort_keys(other_keys(entries_view(d@)))),
{
    let ghost dv = entries_view(d@);
    proof {
        lemma_entries_view_index(d@);
    }
    let mut out: Vec<char> = Vec::new();
    let keys = org_key_list();
    let ghost ks = org_keys();
    let mut i: usize = 0;
    while i < keys.len()
        invariant
            i <= keys@.len(),
            ks == org_keys(),
            keys@.len() == ks.len(),
            forall|j: int| 0 <= j < keys@.len() ==> #[trigger] keys@[j]@ == ks[j],
            dv == entries_view(d@),
            dv.len() == d@.len(),
            forall|j: int| 0 <= j < d@.len() ==> #[trigger] dv[j] == (d@[j].key@, d@[j].value@),
            out@ == org_fm_ordered(dv, ks.take(i as int)),
        decreases keys.len() - i,
    {
        assert(ks.take(i + 1).drop_last() =~= ks.take(i as int));
        if eq_str(&to_chars(keys[i]), "options") {
            push_all(&mut out, &options_lines(d));
        } else {
            match find_key(d, keys[i]) {
                Some(j) => {
                    push_all(&mut out, &org_fm_entry_out(&to_chars(keys[i]), &d[j].value));
                },
                None => {},
            }
        }
        i += 1;
    }
    assert(ks.take(keys@.len() as int) =~= ks);
    let ghost mid = out@;
    let mut others: Vec<Vec<char>> = Vec::new();
    let mut i: usize = 0;
    while i < d.len()
        invariant
            i <= d@.len(),
            dv == entries_view(d@),
            dv.len() == d@.len(),
            forall|j: int| 0 <= j < d@.len() ==> #[trigger] dv[j] == (d@[j].key@, d@[j].value@),
            views(others@) == other_keys(dv.take(i as int)),
        decreases d.len() - i,
    {
        assert(dv.take(i + 1).drop_last() =~= dv.take(i as int));
        let k = to_chars(d[i].key.as_str());
        if !is_org_key(&lowercase(&k)) {
            proof {
                lemma_views_push(others@, k);
            }
            others.push(k);
        }
        assert(views(others@) =~= other_keys(dv.take(i + 1)));
        i += 1;
    }
    assert(dv.take(d@.len() as int) =~= dv);
    let sorted = sorted_keys(others);
    let ghost sv = views(sorted@);
    let mut i: usize = 0;
    while i < sorted.len()
        invariant
            i <= sorted@.len(),
            sv == views(sorted@),
            dv == entries_view(d@),
            dv.len() == d@.len(),
            forall|j: int| 0 <= j < d@.len() ==> #[trigger] dv[j] == (d@[j].key@, d@[j].value@),
            out@ == mid + org_fm_keys(dv, sv.take(i as int)),
        decreases sorted.len() - i,
    {
        assert(sv.take(i + 1).drop_last() =~= sv.take(i as int));
        let ks = from_chars(&sorted[i]);
        match find_key(d, ks.as_str()) {
            Some(j) => {
                push_all(&mut out, &org_fm_entry_out(&sorted[i], &d[j].value));
            },
            None => {},
        }
        i += 1;
    }
    assert(sv.take(sorted@.len() as int) =~= sv);
    out
}


fn kind_is(n: &AstNode, k: &str) -> (r: bool)
    ensures
        r == (n@.kind == k@),
{
    eq_str(&to_chars(n.node_type.as_str()), k)
}

fn render_inline_org(n: &AstNode) -> (r: Vec<char>)
    ensures
        r@ == org_inline(n@),
    decreases n, 1int,
{
    let inner = match &n.children {
        Some(c) => {
            assert(decreases_to!(*n => n.children));
            assert(decreases_to!(n.children => *c));
            render_inline_seq_org(c)
        },
        None => Vec::new(),
    };
    let url = match n.get_data_str("url") {
        Some(u) => to_chars(u),
        None => Vec::new(),
    };
    let mut out: Vec<char> = Vec::new();
    if kind_is(n, "text") {
        match &n.value {
            Some(v) => push_str(&mut out, v.as_str()),
            None => {},
        }
    } else if kind_is(n, "strong") {
        push_str(&mut out, "*");
        push_all(&mut out, &inner);
        push_str(&mut out, "*");
    } else if kind_is(n, "emphasis") {
        push_str(&mut out, "/");
        push_all(&mut out, &inner);
        push_str(&mut out, "/");
    } else if kind_is(n, "underline") {
        push_str(&mut out, "_");
        push_all(&mut out, &inner);
        push_str(&mut out, "_");
    } else if kind_is(n, "delete") {
        push_str(&mut out, "+");
        push_all(&mut out, &inner);
        push_str(&mut out, "+");
    } else if kind_is(n, "inlineCode") {
        match &n.value {
            Some(v) => {
                push_str(&mut out, "~");
                push_str(&mut out, v.as_str());
                push_str(&mut out, "~");
            },
            None => {},
        }
    } else if kind_is(n, "link") {
        push_str(&mut out, "[[");
        push_all(&mut out, &url);
        push_str(&mut out, "][");
        push_all(&mut out, &inner);
        push_str(&mut out, "]]");
    } else if kind_is(n, "image") {
        push_str(&mut out, "[[file:");
        push_all(&mut out, &url);
        push_str(&mut out, "][");
        match n.get_data_str("alt") {
            Some(a) => push_str(&mut out, a),
            None => {},
        }
        push_str(&mut out, "]]");
    } else if kind_is(n, "break") {
        push_str(&mut out, "\\\\\n");
    }
    out
}

fn render_inline_seq_org(ns: &Vec<AstNode>) -> (r: Vec<char>)
    ensures
        r@ == org_inline_seq(nodes_view(ns@)),
    decreases ns, 0int,
{
    let ghost v = nodes_view(ns@);
    proof {
        lemma_nodes_view_index(ns@);
    }
    let mut out: Vec<char> = Vec::new();
    let mut i: usize = 0;
    while i < ns.len()
        invariant
            i <= ns@.len(),
            v == nodes_view(ns@),
            v.len() == ns@.len(),
            forall|j: int| 0 <= j < ns@.len() ==> #[trigger] v[j] == ns@[j]@,
            out@ == org_inline_seq(v.take(i as int)),
        decreases ns.len() - i,
    {
        assert(v.take(i + 1).drop_last() =~= v.take(i as int));
        assert(decreases_to!(*ns => ns@));
        assert(decreases_to!(ns@ => ns@[i as int]));
        let t = render_inline_org(&ns[i]);
        push_all(&mut out, &t);
        i += 1;
    }
    assert(v.take(ns@.len() as int) =~= v);
    out
}

fn render_inlines_org(children: &Option<Vec<AstNode>>) -> (r: Vec<char>)
    ensures
        r@ == org_inlines(opt_nodes(*children)),
{
    match children {
        Some(c) => render_inline_seq_org(c),
        None => Vec::new(),
    }
}

/// Each line of `text` with `prefix` in front and a newline after.
fn prefixed(text: &[char], prefix: &str) -> (r: Vec<char>)
    ensures
        r@ == prefixed_lines(lines(text@), prefix@),
{
    let ls = lines_of(text);
    let ghost v = views(ls@);
    let mut out: Vec<char> = Vec::new();
    let mut i: usize = 0;
    while i < ls.len()
        invariant
            i <= ls@.len(),
            v == views(ls@),
            v == lines(text@),
            out@ == prefixed_lines(v.take(i as int), prefix@),
        decreases ls.len() - i,
    {
        assert(v.take(i + 1).drop_last() =~= v.take(i as int));
        push_str(&mut out, prefix);
        push_all(&mut out, &ls[i]);
        push_str(&mut out, "\n");
        i += 1;
    }
    assert(v.take(ls@.len() as int) =~= v);
    out
}

fn contains_newline(v: &[char]) -> (r: bool)
    ensures
        r == v@.contains('\n'),
{
    let mut i: usize = 0;
    while i < v.len()
        invariant
            i <= v@.len(),
            forall|j: int| 0 <= j < i ==> v@[j] != '\n',
        decreases v.len() - i,
    {
        if v[i] == '\n' {
            assert(v@[i as int] == '\n');
            return true;
        }
        i += 1;
    }
    false
}

fn org_code_out(n: &AstNode) -> (r: Vec<char>)
    ensures
        r@ == org_code(n@),
{
    let val = match &n.value {
        Some(v) => to_chars(v.as_str()),
        None => Vec::new(),
    };
    let lang = n.get_data_str("lang");
    let mut out: Vec<char> = Vec::new();
    if lang.is_none() && !contains_newline(&val) {
        out = prefixed(&val, ": ");
        push_str(&mut out, "\n");
        return out;
    }
    let example = match n.get_data_str("block_type") {
        Some(t) => eq_str(&to_chars(t), "example"),
        None => false,
    };
    match lang {
        Some(l) => {
            push_str(&mut out, "#+BEGIN_SRC ");
            push_str(&mut out, l);
            push_str(&mut out, "\n");
        },
        None => push_str(&mut out, "#+BEGIN_EXAMPLE\n"),
    }
    proof {
        reveal_strlit("");
        assert(""@ =~= Seq::<char>::empty());
    }
    let body = if example {
        prefixed(&val, "")
    } else {
        prefixed(&val, "  ")
    };
    push_all(&mut out, &body);
    if lang.is_some() {
        push_str(&mut out, "#+END_SRC\n\n");
    } else {
        push_str(&mut out, "#+END_EXAMPLE\n\n");
    }
    out
}

fn repeat_char(c: char, n: usize) -> (r: Vec<char>)
    ensures
        r@ == repeat(c, n as nat),
{
    let mut out: Vec<char> = Vec::new();
    let mut i: usize = 0;
    while i < n
        invariant
            i <= n,
            out@ == repeat(c, i as nat),
        decreases n - i,
    {
        out.push(c);
        i += 1;
        assert(out@ =~= repeat(c, i as nat));
    }
    out
}

/// The lines of an item's blocks without the empty lines at the end.
fn item_lines(item_out: &[char]) -> (r: Vec<Vec<char>>)
    ensures
        views(r@) == spec_item_lines(item_out@),
{
    let mut ls = lines_of(item_out);
    while ls.len() > 0 && ls[ls.len() - 1].len() == 0
        invariant
            drop_empty_tail(views(ls@)) == spec_item_lines(item_out@),
        decreases ls@.len(),
    {
        let ghost before = views(ls@);
        ls.pop();
        assert(views(ls@) =~= before.drop_last());
    }
    ls
}

fn org_item_out(body: &[char], marker: &[char], ind: &[char]) -> (r: Vec<char>)
    ensures
        r@ == org_item_text(body@, marker@, ind@),
{
    let ls = item_lines(body);
    let ghost v = views(ls@);
    let mut out: Vec<char> = Vec::new();
    push_all(&mut out, marker);
    if ls.len() == 0 {
        push_str(&mut out, "\n");
        return out;
    }
    push_all(&mut out, &ls[0]);
    push_str(&mut out, "\n");
    let ghost head = out@;
    let mut j: usize = 1;
    assert(v.drop_first().take(0) =~= Seq::<Seq<char>>::empty());
    while j < ls.len()
        invariant
            1 <= j <= ls@.len(),
            v == views(ls@),
            out@ == head + indented_lines(v.drop_first().take(j - 1), ind@),
        decreases ls.len() - j,
    {
        assert(v.drop_first().take(j as int).drop_last() =~= v.drop_first().take(j - 1));
        push_all(&mut out, ind);
        push_all(&mut out, &ls[j]);
        push_str(&mut out, "\n");
        j += 1;
    }
    assert(v.drop_first().take(ls@.len() - 1) =~= v.drop_first());
    out
}

fn render_node_org(n: &AstNode, html: bool) -> (r: Option<Vec<char>>)
    ensures
        match r {
            Some(o) => org_node(n@, html) == Some(o@),
            None => org_node(n@, html) is None,
        },
    decreases n, 3int,
{
    let mut out: Vec<char> = Vec::new();
    if kind_is(n, "heading") {
        let d = match n.get_data_num("depth") {
            Some(d) => d as usize,
            None => 1,
        };
        out = repeat_char('*', d);
        push_str(&mut out, " ");
        push_all(&mut out, &render_inlines_org(&n.children));
        push_str(&mut out, "\n\n");
        proof {
            lemma_entries_view_index(n.data@);
        }
        let tags = match find_key(&n.data, "tags") {
            Some(i) => match &n.data[i].value {
                DataValue::List(l) => str_items_of(l),
                _ => Vec::new(),
            },
            None => Vec::new(),
        };
        if tags.len() > 0 {
            push_str(&mut out, " :");
            push_all(&mut out, &join_str(&tags, ":"));
            push_str(&mut out, ":\n");
        }
        Some(out)
    } else if kind_is(n, "paragraph") {
        let c = render_inlines_org(&n.children);
        if c.len() > 0 {
            push_all(&mut out, &c);
            if n.get_data_bool("hardLineBreak") == Some(true) {
                push_str(&mut out, "\\\\\n\n");
            } else {
                push_str(&mut out, "\n\n");
            }
        }
        Some(out)
    } else if kind_is(n, "list") {
        render_list_org(n, 0, html)
    } else if kind_is(n, "code") {
        Some(org_code_out(n))
    } else if kind_is(n, "blockquote") {
        push_str(&mut out, "#+begin_quote\n");
        match &n.children {
            Some(c) => {
                assert(decreases_to!(*n => n.children));
                assert(decreases_to!(n.children => *c));
                match render_nodes_org(c, html) {
                    Some(b) => push_all(&mut out, &b),
                    None => {
                        return None;
                    },
                }
            },
            None => {},
        }
        push_str(&mut out, "#+end_quote\n\n");
        Some(out)
    } else if kind_is(n, "thematicBreak") {
        Some(to_chars("----\n\n"))
    } else if kind_is(n, "blankLine") {
        Some(to_chars("\n"))
    } else if kind_is(n, "html") {
        match &n.value {
            Some(v) => {
                if html {
                    match try_jsx_to_html(v.as_str()) {
                        Some(h) => {
                            push_str(&mut out, "#+HTML: ");
                            push_str(&mut out, h.as_str());
                            push_str(&mut out, "\n\n");
                            Some(out)
                        },
                        None => None,
                    }
                } else {
                    push_str(&mut out, "#+JSX: ");
                    push_str(&mut out, v.as_str());
                    push_str(&mut out, "\n\n");
                    Some(out)
                }
            },
            None => Some(out),
        }
    } else if kind_is(n, "export") {
        push_str(&mut out, "#+begin_export ");
        match n.get_data_str("lang") {
            Some(l) => push_str(&mut out, l),
            None => {},
        }
        push_str(&mut out, "\n");
        proof {
            reveal_strlit("");
            assert(""@ =~= Seq::<char>::empty());
        }
        match &n.value {
            Some(v) => push_all(&mut out, &prefixed(&to_chars(v.as_str()), "")),
            None => {},
        }
        push_str(&mut out, "#+end_export\n\n");
        Some(out)
    } else {
        Some(out)
    }
}

fn render_nodes_org(ns: &Vec<AstNode>, html: bool) -> (r: Option<Vec<char>>)
    ensures
        match r {
            Some(o) => org_nodes(nodes_view(ns@), html) == Some(o@),
            None => org_nodes(nodes_view(ns@), html) is None,
        },
    decreases ns, 0int,
{
    let ghost v = nodes_view(ns@);
    proof {
        lemma_nodes_view_index(ns@);
    }
    let mut out: Vec<char> = Vec::new();
    let mut i: usize = 0;
    while i < ns.len()
        invariant
            i <= ns@.len(),
            v == nodes_view(ns@),
            v.len() == ns@.len(),
            forall|j: int| 0 <= j < ns@.len() ==> #[trigger] v[j] == ns@[j]@,
            org_nodes(v.take(i as int), html) == Some(out@),
        decreases ns.len() - i,
    {
        assert(v.take(i + 1).drop_last() =~= v.take(i as int));
        assert(decreases_to!(*ns => ns@));
        assert(decreases_to!(ns@ => ns@[i as int]));
        match render_node_org(&ns[i], html) {
            Some(t) => push_all(&mut out, &t),
            None => {
                proof {
                    lemma_org_nodes_none(v, i as int, html);
                }
                return None;
            },
        }
        i += 1;
    }
    assert(v.take(ns@.len() as int) =~= v);
    Some(out)
}

/// Once a node of `v` never ends, neither does writing `v`.
proof fn lemma_org_nodes_none(v: Seq<SNode>, i: int, html: bool)
    requires
        0 <= i < v.len(),
        org_node(v[i], html) is None,
    ensures
        org_nodes(v, html) is None,
    decreases v.len(),
{
    if i < v.len() - 1 {
        lemma_org_nodes_none(v.drop_last(), i, html);
    }
}

fn render_list_org(n: &AstNode, indent: usize, html: bool) -> (r: Option<Vec<char>>)
    requires
        2 * indent <= usize::MAX,
    ensures
        match r {
            Some(o) => org_list(n@, indent as nat, html) == Some(o@),
            None => org_list(n@, indent as nat, html) is None,
        },
    decreases n, 2int,
{
    let ordered = n.get_data_bool("ordered") == Some(true);
    let ind = repeat_char(' ', 2 * indent);
    let mut out: Vec<char> = Vec::new();
    match &n.children {
        Some(items) => {
            assert(decreases_to!(*n => n.children));
            assert(decreases_to!(n.children => *items));
            let ghost v = nodes_view(items@);
            proof {
                lemma_nodes_view_index(items@);
            }
            let mut i: usize = 0;
            while i < items.len()
                invariant
                    i <= items@.len(),
                    v == nodes_view(items@),
                    v.len() == items@.len(),
                    forall|j: int| 0 <= j < items@.len() ==> #[trigger] v[j] == items@[j]@,
                    ind@ == repeat(' ', 2 * indent as nat),
                    org_items(v.take(i as int), ind@, ordered, html) == Some(out@),
                    decreases_to!(*n => *items),
                    n.children == Some(*items),
                    ordered == (lookup_bool(n@.data, "ordered"@) == Some(true)),
                decreases items.len() - i,
            {
                assert(v.take(i + 1).drop_last() =~= v.take(i as int));
                let item = &items[i];
                let body = match &item.children {
                    Some(c) => {
                        assert(decreases_to!(*items => items@));
                        assert(decreases_to!(items@ => items@[i as int]));
                        assert(decreases_to!(items@[i as int] => items@[i as int].children));
                        assert(decreases_to!(items@[i as int].children => *c));
                        render_nodes_org(c, html)
                    },
                    None => Some(Vec::new()),
                };
                match body {
                    Some(b) => {
                        let mut marker: Vec<char> = Vec::new();
                        push_all(&mut marker, &ind);
                        if ordered {
                            push_all(&mut marker, &dec_chars((i as u64) + 1));
                            push_str(&mut marker, ". ");
                        } else {
                            push_str(&mut marker, "- ");
                        }
                        let t = org_item_out(&b, &marker, &ind);
                        push_all(&mut out, &t);
                    },
                    None => {
                        proof {
                            lemma_org_items_none(v, i as int, ind@, ordered, html);
                            lemma_org_items_prefix_none(v, i + 1, ind@, ordered, html);
                        }
                        return None;
                    },
                }
                i += 1;
            }
            assert(v.take(items@.len() as int) =~= v);
        },
        None => {},
    }
    push_str(&mut out, "\n");
    Some(out)
}

/// Once an item of `v` never ends, neither does writing the items.
proof fn lemma_org_items_none(v: Seq<SNode>, i: int, ind: Seq<char>, ordered: bool, html: bool)
    requires
        0 <= i < v.len(),
        (match v[i].children {
            Some(c) => org_nodes(c, html),
            None => Some(Seq::empty()),
        }) is None,
    ensures
        org_items(v.take(i + 1), ind, ordered, html) is None,
{
    assert(v.take(i + 1).drop_last() =~= v.take(i));
}

/// Once the items up to `k` never end, neither do all of them.
proof fn lemma_org_items_prefix_none(v: Seq<SNode>, k: int, ind: Seq<char>, ordered: bool, html: bool)
    requires
        0 <= k <= v.len(),
        org_items(v.take(k), ind, ordered, html) is None,
    ensures
        org_items(v, ind, ordered, html) is None,
    decreases v.len(),
{
    if k == v.len() {
        assert(v.take(k) =~= v);
    } else {
        assert(v.drop_last().take(k) =~= v.take(k));
        lemma_org_items_prefix_none(v.drop_last(), k, ind, ordered, html);
    }
}

/// The syntax tree written out as Org; `None` exactly where converting a JSX fragment to
/// HTML would never end.
pub fn try_render_org(root: &AstNode) -> (r: Option<String>)
    ensures
        match r {
            Some(o) => spec_render_org(root@) == Some(o@),
            None => spec_render_org(root@) is None,
        },
{
    let mut out: Vec<char> = Vec::new();
    proof {
        lemma_entries_view_index(root.data@);
    }
    if root.data.len() > 0 {
        out = front_matter_org(&root.data);
        push_str(&mut out, "\n");
    }
    let html = match org_options_of(&root.data) {
        Some(o) => {
            proof {
                lemma_entries_view_index(o@);
            }
            match find_key(o, "mdx") {
                Some(j) => match &o[j].value {
                    DataValue::Str(m) => eq_str(&to_chars(m.as_str()), "html"),
                    _ => false,
                },
                None => false,
            }
        },
        None => false,
    };
    let ghost fm = out@;
    assert(html == match org_options(root@.data) {
        Some(o) => lookup_str(o, "mdx"@) == Some("html"@),
        None => false,
    });
    assert(fm == (if root@.data.len() > 0 {
        org_fm_ordered(root@.data, org_keys()) + org_fm_keys(root@.data, sort_keys(other_keys(root@.data))) + "\n"@
    } else {
        Seq::empty()
    }));
    match &root.children {
        Some(c) => match render_nodes_org(c, html) {
            Some(b) => push_all(&mut out, &b),
            None => {
                return None;
            },
        },
        None => {
            assert(fm + Seq::<char>::empty() =~= fm);
        },
    }
    let mut t = strip_trailing_chars(&out, '\n');
    let ghost st = t@;
    t.push('\n');
    proof {
        reveal_strlit("\n");
        assert(t@ =~= st + "\n"@);
    }
    Some(from_chars(&t))
}

/// The syntax tree written out as Org.
pub fn render_org(root: &AstNode) -> (r: String)
    requires
        spec_render_org(root@) is Some,
    ensures
        spec_render_org(root@) == Some(r@),
{
    match try_render_org(root) {
        Some(o) => o,
        None => String::new(),
    }
}


/// How inline nodes are written in Org: a link as `[[url][text]]`, an image as
/// `[[file:url][alt]]`, strong text in `*`, emphasis in `/`, underline in `_`,
/// strike-through in `+`, inline code in `~`, a line break as `\\` and a newline, and
/// text as itself. Strong and emphasis are told apart.
pub proof fn law_org_inline_forms(c: Seq<SNode>, t: Seq<char>, u: Seq<char>, a: Seq<char>)
    ensures
        org_inline(SNode::empty("link"@).with_children(c).with_data("url"@, SValue::Str(u)))
            == "[["@ + u + "]["@ + org_inline_seq(c) + "]]"@,
        org_inline(SNode::empty("image"@).with_data("url"@, SValue::Str(u)).with_data("alt"@, SValue::Str(a)))
            == "[[file:"@ + u + "]["@ + a + "]]"@,
        org_inline(SNode::empty("strong"@).with_children(c)) == "*"@ + org_inline_seq(c) + "*"@,
        org_inline(SNode::empty("emphasis"@).with_children(c)) == "/"@ + org_inline_seq(c) + "/"@,
        org_inline(SNode::empty("underline"@).with_children(c)) == "_"@ + org_inline_seq(c) + "_"@,
        org_inline(SNode::empty("delete"@).with_children(c)) == "+"@ + org_inline_seq(c) + "+"@,
        org_inline(SNode::empty("inlineCode"@).with_value(t)) == "~"@ + t + "~"@,
        org_inline(SNode::empty("break"@)) == "\\\\\n"@,
        org_inline(SNode::empty("text"@).with_value(t)) == t,
        org_inline(SNode::empty("strong"@).with_children(c)) != org_inline(SNode::empty("emphasis"@).with_children(c)),
{
    lemma_inline_kinds_distinct();
    let l0 = SNode::empty("link"@).with_children(c);
    law_data_read_after_write(l0, "url"@, SValue::Str(u), "url"@);
    let i0 = SNode::empty("image"@);
    let i1 = i0.with_data("url"@, SValue::Str(u));
    law_data_read_after_write(i0, "url"@, SValue::Str(u), "url"@);
    law_data_read_after_write(i1, "alt"@, SValue::Str(a), "url"@);
    law_data_read_after_write(i1, "alt"@, SValue::Str(a), "alt"@);
    reveal_strlit("*");
    reveal_strlit("/");
    let x = org_inline(SNode::empty("strong"@).with_children(c));
    let y = org_inline(SNode::empty("emphasis"@).with_children(c));
    assert(x[0] != y[0]);
}


/// How blocks are written in Org: a heading of depth `d` as `d` stars, a space and its
/// text; a code block with a language as a `#+BEGIN_SRC` block of its lines indented by
/// two spaces; a thematic break as `----`; list items marked `1. `, `2. `, … in an
/// ordered list and `- ` otherwise, so ordered and bullet lists are told apart.
pub proof fn law_org_block_forms(c: Seq<SNode>, d: u64, v: Seq<char>, l: Seq<char>, i: nat, ind: Seq<char>, html: bool)
    requires
        1 <= d <= 6,
    ensures
        org_node(SNode::empty("heading"@).with_children(c).with_data("depth"@, SValue::UInt(d)), html)
            == Some(repeat('*', d as nat) + " "@ + org_inline_seq(c) + "\n\n"@),
        org_node(SNode::empty("code"@).with_value(v).with_data("lang"@, SValue::Str(l)), html)
            == Some("#+BEGIN_SRC "@ + l + "\n"@ + prefixed_lines(lines(v), "  "@) + "#+END_SRC\n\n"@),
        org_node(SNode::empty("thematicBreak"@), html) == Some("----\n\n"@),
        org_marker(i as int, true, ind) == ind + dec(i + 1) + ". "@,
        org_marker(i as int, false, ind) == ind + "- "@,
        org_marker(i as int, true, ind) != org_marker(i as int, false, ind),
{
    reveal_strlit("heading");
    reveal_strlit("paragraph");
    reveal_strlit("list");
    reveal_strlit("code");
    reveal_strlit("thematicBreak");
    reveal_strlit("blockquote");
    reveal_strlit("depth");
    reveal_strlit("lang");
    reveal_strlit("tags");
    reveal_strlit("block_type");
    reveal_strlit("- ");
    reveal_strlit(". ");
    assert("paragraph"@[0] != "heading"@[0]);
    assert("list"@[0] != "code"@[0]);
    assert("paragraph"@[0] != "code"@[0]);
    assert("heading"@[0] != "code"@[0]);
    assert("heading"@[0] != "thematicBreak"@[0]);
    assert("paragraph"@[0] != "thematicBreak"@[0]);
    assert("list"@[0] != "thematicBreak"@[0]);
    assert("code"@[0] != "thematicBreak"@[0]);
    assert("blockquote"@[0] != "thematicBreak"@[0]);
    assert("tags"@[0] != "depth"@[0]);
    assert("block_type"@[0] != "lang"@[0]);
    let h0 = SNode::empty("heading"@).with_children(c);
    law_data_read_after_write(h0, "depth"@, SValue::UInt(d), "depth"@);
    law_data_read_after_write(h0, "depth"@, SValue::UInt(d), "tags"@);
    assert(lookup(h0.data, "tags"@) is None);
    let c0 = SNode::empty("code"@).with_value(v);
    law_data_read_after_write(c0, "lang"@, SValue::Str(l), "lang"@);
    law_data_read_after_write(c0, "lang"@, SValue::Str(l), "block_type"@);
    assert(lookup(c0.data, "block_type"@) is None);
    let a = org_marker(i as int, true, ind);
    let b = org_marker(i as int, false, ind);
    crate::util::date_law::lemma_dec(i + 1);
    assert(crate::text::is_digit(dec(i + 1)[0]));
    assert(a[ind.len() as int] == dec(i + 1)[0]);
    assert(b[ind.len() as int] == '-');
}

} // verus!
