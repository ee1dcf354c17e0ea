//! Writing the syntax tree out as MDX: YAML front matter, then Markdown blocks.
use vstd::prelude::*;
use crate::ast::node::{
    law_data_read_after_write, lemma_entries_view_index, lemma_nodes_view_index, lookup, lookup_bool, lookup_num, lookup_str,
    node_view, nodes_view, values_view, DataEntry, DataValue, AstNode, SNode, SValue,
};
use crate::text::{
    dec, dec_chars, eq, ends_with_char, from_chars, lines, lines_of, push_all, push_str, repeat,
    to_chars, views,
};
use crate::util::{spec_yaml_str, yaml_str_chars};

verus! {

// ------------------------------------------------------------------
// Front matter
// ------------------------------------------------------------------

/// The keys written first, in this order.
pub open spec fn mdx_keys() -> Seq<Seq<char>> {
    seq!["title"@, "date"@, "updated"@, "abbrlink"@, "tags"@, "language"@, "alias"@]
}

/// The string items of a list, one `  - item` line each.
pub open spec fn yaml_items(l: Seq<SValue>) -> Seq<char>
    decreases l.len(),
{
    if l.len() == 0 {
        Seq::empty()
    } else {
        yaml_items(l.drop_last()) + match l[l.len() - 1] {
            SValue::Str(s) => "  - "@ + s + "\n"@,
            _ => Seq::empty(),
        }
    }
}

/// One front matter entry: a string as `key: value` (quoted for YAML where needed, but
/// never for `abbrlink`), a list as `key:` and its items; other values write nothing.
pub open spec fn fm_entry(key: Seq<char>, v: SValue) -> Seq<char> {
    match v {
        SValue::Str(s) => key + ": "@ + (if key == "abbrlink"@ {
            s
        } else {
            spec_yaml_str(s)
        }) + "\n"@,
        SValue::List(l) => key + ":\n"@ + yaml_items(l),
        _ => Seq::empty(),
    }
}

/// The entries of `d` under `keys`, in the order of `keys`.
pub open spec fn fm_ordered(d: Seq<(Seq<char>, SValue)>, keys: Seq<Seq<char>>) -> Seq<char>
    decreases keys.len(),
{
    if keys.len() == 0 {
        Seq::empty()
    } else {
        let k = keys[keys.len() - 1];
        fm_ordered(d, keys.drop_last()) + match lookup(d, k) {
            Some(v) => fm_entry(k, v),
            None => Seq::empty(),
        }
    }
}

/// The entries of `d` whose keys are not among `keys`, in the order of `d`.
pub open spec fn fm_others(d: Seq<(Seq<char>, SValue)>, keys: Seq<Seq<char>>) -> Seq<char>
    decreases d.len(),
{
    if d.len() == 0 {
        Seq::empty()
    } else {
        let (k, v) = d[d.len() - 1];
        fm_others(d.drop_last(), keys) + if keys.contains(k) {
            Seq::empty()
        } else {
            fm_entry(k, v)
        }
    }
}

// ------------------------------------------------------------------
// Inline content
// ------------------------------------------------------------------

/// An inline node as Markdown.
pub open spec fn md_inline(n: SNode) -> Seq<char>
    decreases n, 1int,
{
    let inner = match n.children {
        Some(c) => md_inline_seq(c),
        None => Seq::empty(),
    };
    let url = match lookup_str(n.data, "url"@) {
        Some(u) => u,
        None => Seq::empty(),
    };
    if n.kind == "text"@ {
        match n.value {
            Some(v) => v,
            None => Seq::empty(),
        }
    } else if n.kind == "strong"@ {
        "**"@ + inner + "**"@
    } else if n.kind == "emphasis"@ {
        "*"@ + inner + "*"@
    } else if n.kind == "underline"@ {
        "<u>"@ + inner + "</u>"@
    } else if n.kind == "delete"@ {
        "~~"@ + inner + "~~"@
    } else if n.kind == "inlineCode"@ {
        match n.value {
            Some(v) => "`"@ + v + "`"@,
            None => Seq::empty(),
        }
    } else if n.kind == "link"@ {
        "["@ + inner + "]("@ + url + ")"@
    } else if n.kind == "image"@ {
        "["@ + (match lookup_str(n.data, "alt"@) {
            Some(a) => a,
            None => Seq::empty(),
        }) + "]("@ + url + ")"@
    } else if n.kind == "break"@ {
        "  \n"@
    } else {
        Seq::empty()
    }
}

/// Inline nodes as Markdown, one after another.
pub open spec fn md_inline_seq(ns: Seq<SNode>) -> Seq<char>
    decreases ns, 0int,
{
    if ns.len() == 0 {
        Seq::empty()
    } else {
        md_inline_seq(ns.drop_last()) + md_inline(ns[ns.len() - 1])
    }
}

/// The inline children of a node as Markdown.
pub open spec fn md_inlines(children: Option<Seq<SNode>>) -> Seq<char> {
    match children {
        Some(c) => md_inline_seq(c),
        None => Seq::empty(),
    }
}

// ------------------------------------------------------------------
// Blocks
// ------------------------------------------------------------------

/// Each line prefixed with `> `.
pub open spec fn quote_lines(ls: Seq<Seq<char>>) -> Seq<char>
    decreases ls.len(),
{
    if ls.len() == 0 {
        Seq::empty()
    } else {
        quote_lines(ls.drop_last()) + "> "@ + ls[ls.len() - 1] + "\n"@
    }
}

/// Each line after the first, indented by `ind` and ended by a newline.
pub open spec fn indented_lines(ls: Seq<Seq<char>>, ind: Seq<char>) -> Seq<char>
    decreases ls.len(),
{
    if ls.len() == 0 {
        Seq::empty()
    } else {
        indented_lines(ls.drop_last(), ind) + ind + ls[ls.len() - 1] + "\n"@
    }
}

/// A list item: its marker, the first line of its blocks, and the other lines indented.
pub open spec fn item_text(body: Seq<char>, marker: Seq<char>, ind: Seq<char>) -> Seq<char> {
    let ls = lines(body);
    if ls.len() > 0 {
        marker + ls[0] + "\n"@ + indented_lines(ls.drop_first(), ind)
    } else {
        marker + "\n"@
    }
}

/// The marker of item `i` of a list indented by `ind`.
pub open spec fn item_marker(i: int, ordered: bool, ind: Seq<char>) -> Seq<char> {
    if ordered {
        ind + dec((i + 1) as nat) + ". "@
    } else {
        ind + "* "@
    }
}

/// The depth a heading is written at: its `depth` datum (1 without one), at most 6.
pub open spec fn md_depth(n: SNode) -> nat {
    match lookup_num(n.data, "depth"@) {
        Some(d) => if d > 6 {
            6
        } else {
            d as nat
        },
        None => 1,
    }
}

/// A block node as Markdown.
pub open spec fn md_node(n: SNode) -> Seq<char>
    decreases n, 3int,
{
    if n.kind == "heading"@ {
        repeat('#', md_depth(n)) + " "@ + md_inlines(n.children) + "\n"@
    } else if n.kind == "paragraph"@ {
        let c = md_inlines(n.children);
        if c.len() == 0 {
            Seq::empty()
        } else if lookup_bool(n.data, "hardLineBreak"@) == Some(true) {
            c + "\\\\\n"@
        } else {
            c + "\n"@
        }
    } else if n.kind == "list"@ {
        md_list(n, 0)
    } else if n.kind == "code"@ {
        (match lookup_str(n.data, "lang"@) {
            Some(l) => "```"@ + l + "\n"@,
            None => "```\n"@,
        }) + (match n.value {
            Some(v) => v + (if v.len() > 0 && v[v.len() - 1] == '\n' {
                Seq::empty()
            } else {
                "\n"@
            }),
            None => Seq::empty(),
        }) + "```\n"@
    } else if n.kind == "blockquote"@ {
        match n.children {
            Some(c) => md_quote(c),
            None => Seq::empty(),
        }
    } else if n.kind == "thematicBreak"@ {
        "---\n\n"@
    } else if n.kind == "blankLine"@ {
        "\n"@
    } else if n.kind == "html"@ {
        match n.value {
            Some(v) => v + "\n"@,
            None => Seq::empty(),
        }
    } else {
        Seq::empty()
    }
}

/// The children of a block quote: each written out, its lines quoted, then a blank line.
pub open spec fn md_quote(ns: Seq<SNode>) -> Seq<char>
    decreases ns, 1int,
{
    if ns.len() == 0 {
        Seq::empty()
    } else {
        md_quote(ns.drop_last()) + quote_lines(lines(md_node(ns[ns.len() - 1]))) + "\n"@
    }
}

/// A list indented by `indent` levels, then a blank line.
pub open spec fn md_list(n: SNode, indent: nat) -> Seq<char>
    decreases n, 2int,
{
    let ordered = lookup_bool(n.data, "ordered"@) == Some(true);
    (match n.children {
        Some(items) => md_items(items, repeat(' ', 2 * indent), ordered),
        None => Seq::empty(),
    }) + "\n"@
}

/// The items of a list.
pub open spec fn md_items(items: Seq<SNode>, ind: Seq<char>, ordered: bool) -> Seq<char>
    decreases items, 1int,
{
    if items.len() == 0 {
        Seq::empty()
    } else {
        let it = items[items.len() - 1];
        let body = match it.children {
            Some(c) => md_nodes(c),
            None => Seq::empty(),
        };
        md_items(items.drop_last(), ind, ordered) + item_text(
            body,
            item_marker(items.len() - 1, ordered, ind),
            ind,
        )
    }
}

/// Block nodes as Markdown, one after another.
pub open spec fn md_nodes(ns: Seq<SNode>) -> Seq<char>
    decreases ns, 0int,
{
    if ns.len() == 0 {
        Seq::empty()
    } else {
        md_nodes(ns.drop_last()) + md_node(ns[ns.len() - 1])
    }
}

/// A document as MDX: the front matter between `---` lines when the root has data,
/// then its blocks.
pub open spec fn spec_render_mdx(root: SNode) -> Seq<char> {
    let fm = if root.data.len() > 0 {
        "---\n"@ + fm_ordered(root.data, mdx_keys()) + fm_others(root.data, mdx_keys()) + "---\n"@
    } else {
        Seq::empty()
    };
    fm + match root.children {
        Some(c) => md_nodes(c),
        None => Seq::empty(),
    }
}


// ------------------------------------------------------------------
// Writing
// ------------------------------------------------------------------

/// The children of a node, by their view.
pub open spec fn opt_nodes(c: Option<Vec<AstNode>>) -> Option<Seq<SNode>> {
    match c {
        Some(v) => Some(nodes_view(v@)),
        None => None,
    }
}

fn kind_is(n: &AstNode, k: &str) -> (r: bool)
    ensures
        r == (n@.kind == k@),
{
    crate::text::eq_str(&to_chars(n.node_type.as_str()), k)
}

fn render_inline(n: &AstNode) -> (r: Vec<char>)
    ensures
        r@ == md_inline(n@),
    decreases n, 1int,
{
    let inner = match &n.children {
        Some(c) => {
            assert(decreases_to!(*n => n.children));
            assert(decreases_to!(n.children => *c));
            render_inline_seq(c)
        },
        None => Vec::new(),
    };
    let url = match n.get_data_str("url") {
        Some(u) => to_chars(u),
        None => Vec::new(),
    };
    let mut out: Vec<char> = Vec::new();
    if kind_is(n, "text") {
        match &n.value {
            Some(v) => push_str(&mut out, v.as_str()),
            None => {},
        }
    } else if kind_is(n, "strong") {
        push_str(&mut out, "**");
        push_all(&mut out, &inner);
        push_str(&mut out, "**");
    } else if kind_is(n, "emphasis") {
        push_str(&mut out, "*");
        push_all(&mut out, &inner);
        push_str(&mut out, "*");
    } else if kind_is(n, "underline") {
        push_str(&mut out, "<u>");
        push_all(&mut out, &inner);
        push_str(&mut out, "</u>");
    } else if kind_is(n, "delete") {
        push_str(&mut out, "~~");
        push_all(&mut out, &inner);
        push_str(&mut out, "~~");
    } else if kind_is(n, "inlineCode") {
        match &n.value {
            Some(v) => {
                push_str(&mut out, "`");
                push_str(&mut out, v.as_str());
                push_str(&mut out, "`");
            },
            None => {},
        }
    } else if kind_is(n, "link") {
        push_str(&mut out, "[");
        push_all(&mut out, &inner);
        push_str(&mut out, "](");
        push_all(&mut out, &url);
        push_str(&mut out, ")");
    } else if kind_is(n, "image") {
        push_str(&mut out, "[");
        match n.get_data_str("alt") {
            Some(a) => push_str(&mut out, a),
            None => {},
        }
        push_str(&mut out, "](");
        push_all(&mut out, &url);
        push_str(&mut out, ")");
    } else if kind_is(n, "break") {
        push_str(&mut out, "  \n");
    }
    out
}

fn render_inline_seq(ns: &Vec<AstNode>) -> (r: Vec<char>)
    ensures
        r@ == md_inline_seq(nodes_view(ns@)),
    decreases ns, 0int,
{
    let ghost v = nodes_view(ns@);
    proof {
        lemma_nodes_view_index(ns@);
    }
    let mut out: Vec<char> = Vec::new();
    let mut i: usize = 0;
    while i < ns.len()
        invariant
            i <= ns@.len(),
            v == nodes_view(ns@),
            v.len() == ns@.len(),
            forall|j: int| 0 <= j < ns@.len() ==> #[trigger] v[j] == ns@[j]@,
            out@ == md_inline_seq(v.take(i as int)),
        decreases ns.len() - i,
    {
        assert(v.take(i + 1).drop_last() =~= v.take(i as int));
        assert(decreases_to!(*ns => ns@));
        assert(decreases_to!(ns@ => ns@[i as int]));
        let s = render_inline(&ns[i]);
        push_all(&mut out, &s);
        i += 1;
    }
    assert(v.take(ns@.len() as int) =~= v);
    out
}

/// The inline children of a node as Markdown.
fn render_inlines(children: &Option<Vec<AstNode>>) -> (r: Vec<char>)
    ensures
        r@ == md_inlines(opt_nodes(*children)),
{
    match children {
        Some(c) => render_inline_seq(c),
        None => Vec::new(),
    }
}

fn repeat_char(c: char, n: usize) -> (r: Vec<char>)
    ensures
        r@ == repeat(c, n as nat),
{
    let mut out: Vec<char> = Vec::new();
    let mut i: usize = 0;
    while i < n
        invariant
            i <= n,
            out@ == repeat(c, i as nat),
        decreases n - i,
    {
        out.push(c);
        i += 1;
        assert(out@ =~= repeat(c, i as nat));
    }
    out
}

/// Each line prefixed with `> `.
fn quote_text(body: &[char]) -> (r: Vec<char>)
    ensures
        r@ == quote_lines(lines(body@)),
{
    let ls = lines_of(body);
    let ghost v = views(ls@);
    let mut out: Vec<char> = Vec::new();
    let mut i: usize = 0;
    while i < ls.len()
        invariant
            i <= ls@.len(),
            v == views(ls@),
            v == lines(body@),
            out@ == quote_lines(v.take(i as int)),
        decreases ls.len() - i,
    {
        assert(v.take(i + 1).drop_last() =~= v.take(i as int));
        push_str(&mut out, "> ");
        push_all(&mut out, &ls[i]);
        push_str(&mut out, "\n");
        i += 1;
    }
    assert(v.take(ls@.len() as int) =~= v);
    out
}

/// A list item from its written blocks.
fn item_out(body: &[char], marker: &[char], ind: &[char]) -> (r: Vec<char>)
    ensures
        r@ == item_text(body@, marker@, ind@),
{
    let ls = lines_of(body);
    let ghost v = views(ls@);
    let mut out: Vec<char> = Vec::new();
    push_all(&mut out, marker);
    if ls.len() > 0 {
        push_all(&mut out, &ls[0]);
    }
    push_str(&mut out, "\n");
    let ghost head = out@;
    if ls.len() == 0 {
        return out;
    }
    let mut j: usize = 1;
    assert(v.drop_first().take(0) =~= Seq::<Seq<char>>::empty());
    while j < ls.len()
        invariant
            1 <= j <= ls@.len(),
            v == views(ls@),
            v == lines(body@),
            out@ == head + indented_lines(v.drop_first().take(j - 1), ind@),
        decreases ls.len() - j,
    {
        assert(v.drop_first().take(j as int).drop_last() =~= v.drop_first().take(j - 1));
        push_all(&mut out, ind);
        push_all(&mut out, &ls[j]);
        push_str(&mut out, "\n");
        j += 1;
    }
    assert(v.drop_first().take(ls@.len() - 1) =~= v.drop_first());
    out
}

fn render_node(n: &AstNode) -> (r: Vec<char>)
    ensures
        r@ == md_node(n@),
    decreases n, 3int,
{
    let mut out: Vec<char> = Vec::new();
    if kind_is(n, "heading") {
        let d = match n.get_data_num("depth") {
            Some(d) => if d > 6 {
                6
            } else {
                d
            },
            None => 1,
        };
        out = repeat_char('#', d as usize);
        push_str(&mut out, " ");
        push_all(&mut out, &render_inlines(&n.children));
        push_str(&mut out, "\n");
    } else if kind_is(n, "paragraph") {
        let c = render_inlines(&n.children);
        if c.len() > 0 {
            push_all(&mut out, &c);
            if n.get_data_bool("hardLineBreak") == Some(true) {
                push_str(&mut out, "\\\\\n");
            } else {
                push_str(&mut out, "\n");
            }
        }
    } else if kind_is(n, "list") {
        out = render_list(n, 0);
    } else if kind_is(n, "code") {
        match n.get_data_str("lang") {
            Some(l) => {
                push_str(&mut out, "```");
                push_str(&mut out, l);
                push_str(&mut out, "\n");
            },
            None => push_str(&mut out, "```\n"),
        }
        match &n.value {
            Some(v) => {
                let vc = to_chars(v.as_str());
                push_all(&mut out, &vc);
                if !ends_with_char(&vc, '\n') {
                    push_str(&mut out, "\n");
                }
            },
            None => {},
        }
        push_str(&mut out, "```\n");
    } else if kind_is(n, "blockquote") {
        match &n.children {
            Some(c) => {
                assert(decreases_to!(*n => n.children));
                assert(decreases_to!(n.children => *c));
                out = render_quote(c);
            },
            None => {},
        }
    } else if kind_is(n, "thematicBreak") {
        push_str(&mut out, "---\n\n");
    } else if kind_is(n, "blankLine") {
        push_str(&mut out, "\n");
    } else if kind_is(n, "html") {
        match &n.value {
            Some(v) => {
                push_str(&mut out, v.as_str());
                push_str(&mut out, "\n");
            },
            None => {},
        }
    }
    out
}

fn render_quote(ns: &Vec<AstNode>) -> (r: Vec<char>)
    ensures
        r@ == md_quote(nodes_view(ns@)),
    decreases ns, 1int,
{
    let ghost v = nodes_view(ns@);
    proof {
        lemma_nodes_view_index(ns@);
    }
    let mut out: Vec<char> = Vec::new();
    let mut i: usize = 0;
    while i < ns.len()
        invariant
            i <= ns@.len(),
            v == nodes_view(ns@),
            v.len() == ns@.len(),
            forall|j: int| 0 <= j < ns@.len() ==> #[trigger] v[j] == ns@[j]@,
            out@ == md_quote(v.take(i as int)),
        decreases ns.len() - i,
    {
        assert(v.take(i + 1).drop_last() =~= v.take(i as int));
        assert(decreases_to!(*ns => ns@));
        assert(decreases_to!(ns@ => ns@[i as int]));
        let body = render_node(&ns[i]);
        let q = quote_text(&body);
        push_all(&mut out, &q);
        push_str(&mut out, "\n");
        i += 1;
    }
    assert(v.take(ns@.len() as int) =~= v);
    out
}

fn render_nodes(ns: &Vec<AstNode>) -> (r: Vec<char>)
    ensures
        r@ == md_nodes(nodes_view(ns@)),
    decreases ns, 0int,
{
    let ghost v = nodes_view(ns@);
    proof {
        lemma_nodes_view_index(ns@);
    }
    let mut out: Vec<char> = Vec::new();
    let mut i: usize = 0;
    while i < ns.len()
        invariant
            i <= ns@.len(),
            v == nodes_view(ns@),
            v.len() == ns@.len(),
            forall|j: int| 0 <= j < ns@.len() ==> #[trigger] v[j] == ns@[j]@,
            out@ == md_nodes(v.take(i as int)),
        decreases ns.len() - i,
    {
        assert(v.take(i + 1).drop_last() =~= v.take(i as int));
        assert(decreases_to!(*ns => ns@));
        assert(decreases_to!(ns@ => ns@[i as int]));
        let s = render_node(&ns[i]);
        push_all(&mut out, &s);
        i += 1;
    }
    assert(v.take(ns@.len() as int) =~= v);
    out
}

fn render_list(n: &AstNode, indent: usize) -> (r: Vec<char>)
    requires
        2 * indent <= usize::MAX,
    ensures
        r@ == md_list(n@, indent as nat),
    decreases n, 2int,
{
    let ordered = n.get_data_bool("ordered") == Some(true);
    let ind = repeat_char(' ', 2 * indent);
    let mut out: Vec<char> = Vec::new();
    match &n.children {
        Some(items) => {
            assert(decreases_to!(*n => n.children));
            assert(decreases_to!(n.children => *items));
            let ghost v = nodes_view(items@);
            proof {
                lemma_nodes_view_index(items@);
            }
            let mut i: usize = 0;
            while i < items.len()
                invariant
                    i <= items@.len(),
                    v == nodes_view(items@),
                    v.len() == items@.len(),
                    forall|j: int| 0 <= j < items@.len() ==> #[trigger] v[j] == items@[j]@,
                    ind@ == repeat(' ', 2 * indent as nat),
                    out@ == md_items(v.take(i as int), ind@, ordered),
                    decreases_to!(*n => *items),
                decreases items.len() - i,
            {
                assert(v.take(i + 1).drop_last() =~= v.take(i as int));
                let item = &items[i];
                let body = match &item.children {
                    Some(c) => {
                        assert(decreases_to!(*items => items@));
                        assert(decreases_to!(items@ => items@[i as int]));
                        assert(decreases_to!(items@[i as int] => items@[i as int].children));
                        assert(decreases_to!(items@[i as int].children => *c));
                        render_nodes(c)
                    },
                    None => Vec::new(),
                };
                let mut marker: Vec<char> = Vec::new();
                push_all(&mut marker, &ind);
                if ordered {
                    push_all(&mut marker, &dec_chars((i as u64) + 1));
                    push_str(&mut marker, ". ");
                } else {
                    push_str(&mut marker, "* ");
                }
                let t = item_out(&body, &marker, &ind);
                push_all(&mut out, &t);
                i += 1;
            }
            assert(v.take(items@.len() as int) =~= v);
        },
        None => {},
    }
    push_str(&mut out, "\n");
    out
}


fn yaml_items_out(l: &Vec<DataValue>) -> (r: Vec<char>)
    ensures
        r@ == yaml_items(values_view(l@)),
{
    let ghost v = values_view(l@);
    proof {
        crate::ast::node::lemma_values_view_index(l@);
    }
    let mut out: Vec<char> = Vec::new();
    let mut i: usize = 0;
    while i < l.len()
        invariant
            i <= l@.len(),
            v == values_view(l@),
            v.len() == l@.len(),
            forall|j: int| 0 <= j < l@.len() ==> #[trigger] v[j] == l@[j]@,
            out@ == yaml_items(v.take(i as int)),
        decreases l.len() - i,
    {
        assert(v.take(i + 1).drop_last() =~= v.take(i as int));
        match &l[i] {
            DataValue::Str(s) => {
                push_str(&mut out, "  - ");
                push_str(&mut out, s.as_str());
                push_str(&mut out, "\n");
            },
            _ => {},
        }
        i += 1;
    }
    assert(v.take(l@.len() as int) =~= v);
    out
}

fn fm_entry_out(key: &[char], v: &DataValue) -> (r: Vec<char>)
    ensures
        r@ == fm_entry(key@, v@),
{
    let mut out: Vec<char> = Vec::new();
    match v {
        DataValue::Str(s) => {
            push_all(&mut out, key);
            push_str(&mut out, ": ");
            let sc = to_chars(s.as_str());
            if crate::text::eq_str(key, "abbrlink") {
                push_all(&mut out, &sc);
            } else {
                push_all(&mut out, &yaml_str_chars(&sc));
            }
            push_str(&mut out, "\n");
        },
        DataValue::List(l) => {
            push_all(&mut out, key);
            push_str(&mut out, ":\n");
            push_all(&mut out, &yaml_items_out(l));
        },
        _ => {},
    }
    out
}

fn mdx_key_list() -> (r: Vec<&'static str>)
    ensures
        r@.len() == mdx_keys().len(),
        forall|i: int| 0 <= i < r@.len() ==> #[trigger] r@[i]@ == mdx_keys()[i],
{
    let mut v: Vec<&'static str> = Vec::new();
    v.push("title");
    v.push("date");
    v.push("updated");
    v.push("abbrlink");
    v.push("tags");
    v.push("language");
    v.push("alias");
    v
}

/// Whether `k` is one of the keys written first.
fn is_mdx_key(k: &[char]) -> (r: bool)
    ensures
        r == mdx_keys().contains(k@),
{
    let keys = mdx_key_list();
    let ghost ks = mdx_keys();
    let mut i: usize = 0;
    while i < keys.len()
        invariant
            i <= keys@.len(),
            ks == mdx_keys(),
            keys@.len() == ks.len(),
            forall|j: int| 0 <= j < keys@.len() ==> #[trigger] keys@[j]@ == ks[j],
            forall|j: int| 0 <= j < i ==> ks[j] != k@,
        decreases keys.len() - i,
    {
        if crate::text::eq_str(k, keys[i]) {
            assert(ks[i as int] == k@);
            return true;
        }
        i += 1;
    }
    false
}

/// The syntax tree written out as MDX.
pub fn render_mdx(root: &AstNode) -> (r: String)
    ensures
        r@ == spec_render_mdx(root@),
{
    let mut out: Vec<char> = Vec::new();
    let ghost d = root@.data;
    proof {
        lemma_entries_view_index(root.data@);
    }
    if root.data.len() > 0 {
        push_str(&mut out, "---\n");
        let keys = mdx_key_list();
        let ghost ks = mdx_keys();
        let ghost start = out@;
        let mut i: usize = 0;
        while i < keys.len()
            invariant
                i <= keys@.len(),
                ks == mdx_keys(),
                keys@.len() == ks.len(),
                forall|j: int| 0 <= j < keys@.len() ==> #[trigger] keys@[j]@ == ks[j],
                d == root@.data,
                d == crate::ast::node::entries_view(root.data@),
                d.len() == root.data@.len(),
                forall|j: int| 0 <= j < root.data@.len() ==> #[trigger] d[j] == (root.data@[j].key@, root.data@[j].value@),
                out@ == start + fm_ordered(d, ks.take(i as int)),
            decreases keys.len() - i,
        {
            assert(ks.take(i + 1).drop_last() =~= ks.take(i as int));
            match crate::ast::node::find_key(&root.data, keys[i]) {
                Some(j) => {
                    let e = fm_entry_out(&to_chars(keys[i]), &root.data[j].value);
                    push_all(&mut out, &e);
                },
                None => {},
            }
            i += 1;
        }
        assert(ks.take(keys@.len() as int) =~= ks);
        let ghost mid = out@;
        let mut i: usize = 0;
        while i < root.data.len()
            invariant
                i <= root.data@.len(),
                d == root@.data,
                d.len() == root.data@.len(),
                forall|j: int| 0 <= j < root.data@.len() ==> #[trigger] d[j] == (root.data@[j].key@, root.data@[j].value@),
                out@ == mid + fm_others(d.take(i as int), mdx_keys()),
            decreases root.data.len() - i,
        {
            assert(d.take(i + 1).drop_last() =~= d.take(i as int));
            let k = to_chars(root.data[i].key.as_str());
            if !is_mdx_key(&k) {
                let e = fm_entry_out(&k, &root.data[i].value);
                push_all(&mut out, &e);
            }
            i += 1;
        }
        assert(d.take(root.data@.len() as int) =~= d);
        push_str(&mut out, "---\n");
    }
    match &root.children {
        Some(c) => {
            let b = render_nodes(c);
            push_all(&mut out, &b);
        },
        None => {},
    }
    from_chars(&out)
}


// ------------------------------------------------------------------
// How inline nodes are written
// ------------------------------------------------------------------

/// The kind names are told apart by their text.
pub(crate) proof fn lemma_inline_kinds_distinct()
    ensures
        "text"@ != "link"@, "strong"@ != "link"@, "emphasis"@ != "link"@, "underline"@ != "link"@,
        "delete"@ != "link"@, "inlineCode"@ != "link"@,
        "text"@ != "image"@, "strong"@ != "image"@, "emphasis"@ != "image"@, "underline"@ != "image"@,
        "delete"@ != "image"@, "inlineCode"@ != "image"@, "link"@ != "image"@,
        "text"@ != "strong"@,
        "text"@ != "emphasis"@, "strong"@ != "emphasis"@,
        "text"@ != "delete"@, "strong"@ != "delete"@, "emphasis"@ != "delete"@, "underline"@ != "delete"@,
        "text"@ != "underline"@, "strong"@ != "underline"@, "emphasis"@ != "underline"@,
        "text"@ != "inlineCode"@, "strong"@ != "inlineCode"@, "emphasis"@ != "inlineCode"@,
        "underline"@ != "inlineCode"@, "delete"@ != "inlineCode"@,
        "text"@ != "break"@, "strong"@ != "break"@, "emphasis"@ != "break"@, "underline"@ != "break"@,
        "delete"@ != "break"@, "inlineCode"@ != "break"@, "link"@ != "break"@, "image"@ != "break"@,
        "url"@ != "alt"@,
{
    reveal_strlit("text");
    reveal_strlit("link");
    reveal_strlit("strong");
    reveal_strlit("emphasis");
    reveal_strlit("underline");
    reveal_strlit("delete");
    reveal_strlit("inlineCode");
    reveal_strlit("image");
    reveal_strlit("break");
    reveal_strlit("url");
    reveal_strlit("alt");
    assert("text"@.len() != "link"@.len() || "text"@[0] != "link"@[0]);
    assert("strong"@[0] != "link"@[0]);
    assert("emphasis"@[0] != "link"@[0]);
    assert("underline"@[0] != "link"@[0]);
    assert("delete"@[0] != "link"@[0]);
    assert("inlineCode"@[0] != "link"@[0]);
    assert("text"@[0] != "image"@[0]);
    assert("strong"@[0] != "image"@[0]);
    assert("emphasis"@[0] != "image"@[0]);
    assert("underline"@[0] != "image"@[0]);
    assert("delete"@[0] != "image"@[0]);
    assert("inlineCode"@[1] != "image"@[1]);
    assert("link"@[0] != "image"@[0]);
    assert("text"@[0] != "strong"@[0]);
    assert("text"@[0] != "emphasis"@[0]);
    assert("strong"@[0] != "emphasis"@[0]);
    assert("text"@[0] != "delete"@[0]);
    assert("strong"@[0] != "delete"@[0]);
    assert("emphasis"@[0] != "delete"@[0]);
    assert("underline"@[0] != "delete"@[0]);
    assert("text"@[0] != "underline"@[0]);
    assert("strong"@[0] != "underline"@[0]);
    assert("emphasis"@[0] != "underline"@[0]);
    assert("text"@[0] != "inlineCode"@[0]);
    assert("strong"@[0] != "inlineCode"@[0]);
    assert("emphasis"@[0] != "inlineCode"@[0]);
    assert("underline"@[0] != "inlineCode"@[0]);
    assert("delete"@[0] != "inlineCode"@[0]);
    assert("text"@[0] != "break"@[0]);
    assert("strong"@[0] != "break"@[0]);
    assert("emphasis"@[0] != "break"@[0]);
    assert("underline"@[0] != "break"@[0]);
    assert("delete"@[0] != "break"@[0]);
    assert("inlineCode"@[0] != "break"@[0]);
    assert("link"@[0] != "break"@[0]);
    assert("image"@[0] != "break"@[0]);
    assert("url"@[0] != "alt"@[0]);
}

/// How inline nodes are written in MDX: a link as its text in brackets followed by its
/// URL in parentheses (`[text](url)`), an image as its alt text in brackets followed by
/// its URL, strong text in `**`, emphasis in single `*`, strike-through in `~~`,
/// underline in `<u>` tags, inline code in backticks, a line break as two spaces and a
/// newline, and text as itself. Strong and emphasis are told apart.
pub proof fn law_mdx_inline_forms(c: Seq<SNode>, t: Seq<char>, u: Seq<char>, a: Seq<char>)
    ensures
        md_inline(SNode::empty("link"@).with_children(c).with_data("url"@, SValue::Str(u)))
            == "["@ + md_inline_seq(c) + "]("@ + u + ")"@,
        md_inline(SNode::empty("image"@).with_data("url"@, SValue::Str(u)).with_data("alt"@, SValue::Str(a)))
            == "["@ + a + "]("@ + u + ")"@,
        md_inline(SNode::empty("strong"@).with_children(c)) == "**"@ + md_inline_seq(c) + "**"@,
        md_inline(SNode::empty("emphasis"@).with_children(c)) == "*"@ + md_inline_seq(c) + "*"@,
        md_inline(SNode::empty("delete"@).with_children(c)) == "~~"@ + md_inline_seq(c) + "~~"@,
        md_inline(SNode::empty("underline"@).with_children(c)) == "<u>"@ + md_inline_seq(c) + "</u>"@,
        md_inline(SNode::empty("inlineCode"@).with_value(t)) == "`"@ + t + "`"@,
        md_inline(SNode::empty("break"@)) == "  \n"@,
        md_inline(SNode::empty("text"@).with_value(t)) == t,
        md_inline(SNode::empty("strong"@).with_children(c)) != md_inline(SNode::empty("emphasis"@).with_children(c)),
{
    lemma_inline_kinds_distinct();
    let l0 = SNode::empty("link"@).with_children(c);
    law_data_read_after_write(l0, "url"@, SValue::Str(u), "url"@);
    let i0 = SNode::empty("image"@);
    let i1 = i0.with_data("url"@, SValue::Str(u));
    law_data_read_after_write(i0, "url"@, SValue::Str(u), "url"@);
    law_data_read_after_write(i1, "alt"@, SValue::Str(a), "url"@);
    law_data_read_after_write(i1, "alt"@, SValue::Str(a), "alt"@);
    reveal_strlit("**");
    reveal_strlit("*");
    let x = md_inline(SNode::empty("strong"@).with_children(c));
    let y = md_inline(SNode::empty("emphasis"@).with_children(c));
    assert(x.len() != y.len());
}


/// How blocks are written in MDX: a heading of depth `d` (1 to 6) as `d` hashes, a space
/// and its text; a code block as a fence with its language, its text and a closing
/// fence; a thematic break as `---`; list items marked `1. `, `2. `, … in an ordered
/// list and `* ` otherwise, so ordered and bullet lists are told apart.
pub proof fn law_mdx_block_forms(c: Seq<SNode>, d: u64, v: Seq<char>, l: Seq<char>, i: nat, ind: Seq<char>)
    requires
        1 <= d <= 6,
    ensures
        md_node(SNode::empty("heading"@).with_children(c).with_data("depth"@, SValue::UInt(d)))
            == repeat('#', d as nat) + " "@ + md_inline_seq(c) + "\n"@,
        (v.len() == 0 || v[v.len() - 1] != '\n') ==> md_node(
            SNode::empty("code"@).with_value(v).with_data("lang"@, SValue::Str(l)),
        ) == "```"@ + l + "\n"@ + v + "\n"@ + "```\n"@,
        md_node(SNode::empty("thematicBreak"@)) == "---\n\n"@,
        item_marker(i as int, true, ind) == ind + dec(i + 1) + ". "@,
        item_marker(i as int, false, ind) == ind + "* "@,
        item_marker(i as int, true, ind) != item_marker(i as int, false, ind),
{
    reveal_strlit("heading");
    reveal_strlit("paragraph");
    reveal_strlit("list");
    reveal_strlit("code");
    reveal_strlit("thematicBreak");
    reveal_strlit("depth");
    reveal_strlit("lang");
    reveal_strlit("* ");
    reveal_strlit(". ");
    assert("paragraph"@[0] != "heading"@[0]);
    assert("list"@[0] != "heading"@[0]);
    assert("list"@[0] != "code"@[0]);
    assert("paragraph"@[0] != "code"@[0]);
    assert("heading"@[0] != "code"@[0]);
    assert("heading"@[0] != "thematicBreak"@[0]);
    assert("paragraph"@[0] != "thematicBreak"@[0]);
    assert("list"@[0] != "thematicBreak"@[0]);
    assert("code"@[0] != "thematicBreak"@[0]);
    assert("blockquote"@ != "thematicBreak"@) by {
        reveal_strlit("blockquote");
        assert("blockquote"@[0] != "thematicBreak"@[0]);
    }
    let h0 = SNode::empty("heading"@).with_children(c);
    law_data_read_after_write(h0, "depth"@, SValue::UInt(d), "depth"@);
    let c0 = SNode::empty("code"@).with_value(v);
    law_data_read_after_write(c0, "lang"@, SValue::Str(l), "lang"@);
    let a = item_marker(i as int, true, ind);
    let b = item_marker(i as int, false, ind);
    crate::util::date_law::lemma_dec(i + 1);
    assert(crate::text::is_digit(dec(i + 1)[0]));
    assert(a[ind.len() as int] == dec(i + 1)[0]);
    assert(b[ind.len() as int] == '*');
}

} // verus!
