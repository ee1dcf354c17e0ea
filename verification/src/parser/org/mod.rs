//! The Org parser: document keywords first, then the blocks of the body.
pub mod block;
pub mod directive;
pub mod heading;
pub mod inclusion;
pub mod list;

use vstd::prelude::*;
use crate::ast::node::{
    law_data_read_after_write, lookup, entries_view, insert_all, lemma_nodes_view_index, lemma_nodes_view_push, nodes_view, DataEntry,
    DataValue, AstNode, SNode, SValue, values_view, lemma_values_view_push,
};
use crate::error::Error;
use crate::parser::inline::{parse_inline_chars, spec_parse_inline, LinkAliases};
use crate::renderer::html_jsx::{spec_html_to_jsx, try_html_to_jsx};
use crate::text::{
    ends_with_str, eq_str, from_chars, has_prefix, has_suffix, join, join_str, lines, lines_of,
    lowercase, push_all, push_str, slice, starts_with, starts_with_str, str_lowercase, to_chars,
    trim, trim_chars, trim_end, trim_end_chars, trim_start, trim_start_chars, views, lemma_views_push,
};
use crate::util::{
    collapse_spaces_chars, indent_run, kw_chars, spec_collapse_spaces, spec_kw,
    spec_strip_prefix_spaces, strip_prefix_spaces_chars, lemma_indent_run,
};
use self::block::{parse_block_begin, spec_block_begin, spec_end_keyword, BlockType, SBlockType};
use self::directive::{apply_directive, spec_directives};
use self::heading::{
    heading_refused, is_refused_heading, parse_heading_chars, should_skip_chars, spec_parse_heading,
    spec_should_skip_section,
};
use self::list::{
    is_ordered_item_chars, is_unordered_item_chars, ordered_parts_chars, spec_is_ordered_item,
    spec_is_unordered_item, spec_ordered_parts,
};

verus! {

// ------------------------------------------------------------------
// Nodes
// ------------------------------------------------------------------

pub open spec fn node_of(kind: Seq<char>) -> SNode {
    SNode::empty(kind)
}

pub open spec fn para_node(children: Seq<SNode>) -> SNode {
    SNode::empty("paragraph"@).with_children(children)
}

pub open spec fn item_node(children: Seq<SNode>) -> SNode {
    SNode::empty("listItem"@).with_children(children)
}

pub open spec fn list_node(items: Seq<SNode>, ordered: bool) -> SNode {
    SNode::empty("list"@).with_children(items).with_data("ordered"@, SValue::Bool(ordered))
}

pub open spec fn heading_node(depth: u32, title: Seq<char>, tags: Seq<Seq<char>>, al: Seq<(Seq<char>, Seq<char>)>) -> SNode {
    SNode::empty("heading"@).with_children(spec_parse_inline(title, al)).with_data(
        "depth"@,
        SValue::UInt(depth as u64),
    ).with_data("tags"@, SValue::List(tags.map_values(|t: Seq<char>| SValue::Str(t))))
}

// ------------------------------------------------------------------
// Line runs
// ------------------------------------------------------------------

/// The line after the section that starts before `p` at heading level `depth`: the
/// first heading at that level or above, or the end; `None` where a heading on the way
/// is one the heading reader refuses.
pub open spec fn skip_end(ls: Seq<Seq<char>>, p: int, depth: u32) -> Option<int>
    decreases ls.len() - p,
{
    if p < 0 || p >= ls.len() {
        Some(p)
    } else if heading_refused(ls[p]) {
        None
    } else if spec_parse_heading(ls[p]) matches Some((lvl, _, _)) && lvl <= depth {
        Some(p)
    } else {
        skip_end(ls, p + 1, depth)
    }
}

/// The line of a fixed-width (`: `) line run.
pub open spec fn is_colon_line(l: Seq<char>) -> bool {
    has_prefix(l, ": "@) || l == ":"@
}

/// The end of the run of fixed-width lines from `p`.
pub open spec fn colon_end(ls: Seq<Seq<char>>, p: int) -> int
    decreases ls.len() - p,
{
    if 0 <= p < ls.len() && is_colon_line(ls[p]) {
        colon_end(ls, p + 1)
    } else {
        p
    }
}

/// The text of a fixed-width line.
pub open spec fn colon_text(l: Seq<char>) -> Seq<char> {
    if has_prefix(l, ": "@) {
        l.subrange(2, l.len() as int)
    } else {
        Seq::empty()
    }
}

/// The line at or after `p` that ends a block closed by `#+end_<ek>`, or the end.
pub open spec fn block_close(ls: Seq<Seq<char>>, p: int, ek: Seq<char>) -> int
    decreases ls.len() - p,
{
    if p < 0 || p >= ls.len() {
        p
    } else if has_prefix(str_lowercase(trim(ls[p])), "#+end_"@ + ek) {
        p
    } else {
        block_close(ls, p + 1, ek)
    }
}

/// The leading spaces and tabs of a line.
pub open spec fn lead_ws(l: Seq<char>) -> int {
    indent_run(l, 0, l.len() as int)
}

/// The indentation taken off a block is the smallest indentation of its non-blank
/// lines: no non-blank line is indented less, and some non-blank line is indented
/// exactly that much, so the lines keep their indentation relative to each other; with
/// no non-blank line nothing is taken off.
pub proof fn law_min_indent(ls: Seq<Seq<char>>)
    ensures
        min_indent(ls) is None <==> forall|i: int| 0 <= i < ls.len() ==> trim(#[trigger] ls[i]).len() == 0,
        min_indent(ls) matches Some(m) ==> {
            &&& forall|i: int| 0 <= i < ls.len() && trim(#[trigger] ls[i]).len() > 0 ==> m <= lead_ws(ls[i])
            &&& exists|i: int| 0 <= i < ls.len() && trim(#[trigger] ls[i]).len() > 0 && lead_ws(ls[i]) == m
        },
    decreases ls.len(),
{
    if ls.len() > 0 {
        let d = ls.drop_last();
        let l = ls[ls.len() - 1];
        let n = ls.len() - 1;
        law_min_indent(d);
        assert forall|i: int| 0 <= i < d.len() implies #[trigger] d[i] == ls[i] by {}
        match min_indent(d) {
            None => {
                if trim(l).len() > 0 {
                    assert(trim(ls[n]).len() > 0 && lead_ws(ls[n]) == lead_ws(l));
                    assert forall|i: int| 0 <= i < ls.len() && trim(#[trigger] ls[i]).len() > 0 implies min_indent(
                        ls,
                    )->0 <= lead_ws(ls[i]) by {
                        if i < n {
                            assert(trim(d[i]).len() == 0);
                        }
                    }
                } else {
                    assert forall|i: int| 0 <= i < ls.len() implies trim(#[trigger] ls[i]).len() == 0 by {
                        if i < n {
                            assert(trim(d[i]).len() == 0);
                        }
                    }
                }
            },
            Some(x) => {
                let w = choose|i: int| 0 <= i < d.len() && trim(#[trigger] d[i]).len() > 0 && lead_ws(d[i]) == x;
                assert(trim(ls[w]).len() > 0);
                if trim(l).len() > 0 && lead_ws(l) < x {
                    assert(trim(ls[n]).len() > 0 && lead_ws(ls[n]) == lead_ws(l));
                } else {
                    assert(lead_ws(ls[w]) == x);
                }
                assert forall|i: int| 0 <= i < ls.len() && trim(#[trigger] ls[i]).len() > 0 implies min_indent(
                    ls,
                )->0 <= lead_ws(ls[i]) by {
                    if i < n {
                        assert(trim(d[i]).len() > 0);
                    }
                }
            },
        }
    }
}

/// The smallest indentation of the non-blank lines, if any.
pub open spec fn min_indent(ls: Seq<Seq<char>>) -> Option<int>
    decreases ls.len(),
{
    if ls.len() == 0 {
        None
    } else {
        let m = min_indent(ls.drop_last());
        let l = ls[ls.len() - 1];
        if trim(l).len() == 0 {
            m
        } else {
            match m {
                None => Some(lead_ws(l)),
                Some(x) => Some(if lead_ws(l) < x {
                    lead_ws(l)
                } else {
                    x
                }),
            }
        }
    }
}

/// The lines with their common indentation removed, joined by newlines.
pub open spec fn dedent(ls: Seq<Seq<char>>) -> Seq<char> {
    let n = match min_indent(ls) {
        Some(x) => x,
        None => 0,
    };
    join(ls.map_values(|l: Seq<char>| spec_strip_prefix_spaces(l, n)), "\n"@)
}

/// A quote block's lines: blank lines stay, other lines are paragraphs.
pub open spec fn quote_children(ls: Seq<Seq<char>>, al: Seq<(Seq<char>, Seq<char>)>) -> Seq<SNode> {
    ls.map_values(
        |l: Seq<char>|
            if trim(l).len() == 0 {
                node_of("blankLine"@)
            } else {
                para_node(spec_parse_inline(trim(l), al))
            },
    )
}

/// The node made of a block of kind `bt` holding `ls`.
pub open spec fn block_node(bt: SBlockType, ls: Seq<Seq<char>>, al: Seq<(Seq<char>, Seq<char>)>) -> SNode {
    match bt {
        SBlockType::Src { lang, exports } => if exports == Some("none"@) {
            node_of("comment"@).with_value(":exports none"@)
        } else {
            node_of("code"@).with_value(dedent(ls)).with_data("lang"@, SValue::Str(lang))
        },
        SBlockType::Example => node_of("code"@).with_value(dedent(ls)).with_data(
            "block_type"@,
            SValue::Str("example"@),
        ),
        SBlockType::Quote => node_of("blockquote"@).with_children(quote_children(ls, al)),
        SBlockType::Center => para_node(spec_parse_inline(join(ls, " "@), al)),
        SBlockType::Export { export_type, exports } => if exports == Some("none"@) {
            node_of("comment"@).with_value(":exports none"@)
        } else {
            node_of("export"@).with_value(join(ls, "\n"@)).with_data("lang"@, SValue::Str(export_type))
        },
        SBlockType::Unknown(_) => para_node(spec_parse_inline(join(ls, " "@), al)),
    }
}

/// The block starting at line `p` and the line after it.
pub open spec fn block_at(ls: Seq<Seq<char>>, al: Seq<(Seq<char>, Seq<char>)>, p: int) -> (SNode, int) {
    let bt = spec_block_begin(ls[p]);
    let e = block_close(ls, p + 1, spec_end_keyword(bt));
    (block_node(bt, ls.subrange(p + 1, e), al), if e < ls.len() {
        e + 1
    } else {
        e
    })
}

/// A paragraph line with a trailing `\\` removed, and whether it had one.
pub open spec fn para_part(l: Seq<char>) -> (Seq<char>, bool) {
    let t = trim(l);
    if has_suffix(t, "\\\\"@) {
        (trim_end(t.subrange(0, t.len() - 2)), true)
    } else {
        (t, false)
    }
}

/// Whether any of the lines ends with `\\`.
pub open spec fn any_break(ls: Seq<Seq<char>>) -> bool
    decreases ls.len(),
{
    ls.len() > 0 && (any_break(ls.drop_last()) || para_part(ls[ls.len() - 1]).1)
}

/// The end of the paragraph whose lines continue at `p`; `None` where a heading on the
/// way is one the heading reader refuses.
pub open spec fn para_end(ls: Seq<Seq<char>>, p: int) -> Option<int>
    decreases ls.len() - p,
{
    if p < 0 || p >= ls.len() {
        Some(p)
    } else {
        let l = ls[p];
        let t = trim(l);
        if t.len() == 0 || has_prefix(t, "#+"@) || has_prefix(t, "#-"@) {
            Some(p)
        } else if heading_refused(l) {
            None
        } else if spec_parse_heading(l) is Some || spec_is_unordered_item(l) || spec_is_ordered_item(l) {
            Some(p)
        } else {
            para_end(ls, p + 1)
        }
    }
}

/// The paragraph made of the lines `ls`.
pub open spec fn para_of(ls: Seq<Seq<char>>, al: Seq<(Seq<char>, Seq<char>)>) -> SNode {
    let parts = ls.map_values(|l: Seq<char>| para_part(l).0);
    let content = spec_parse_inline(spec_collapse_spaces(join(parts, "\n"@)), al);
    if any_break(ls) {
        para_node(content).with_data("hardLineBreak"@, SValue::Bool(true))
    } else {
        para_node(content)
    }
}

/// The content of an unordered item: the trimmed line after its two-character marker.
pub open spec fn bullet_text(l: Seq<char>) -> Seq<char> {
    trim(l).subrange(2, trim(l).len() as int)
}

/// An item holding one paragraph of `text`.
pub open spec fn simple_item(text: Seq<char>, al: Seq<(Seq<char>, Seq<char>)>) -> SNode {
    item_node(seq![para_node(spec_parse_inline(trim(text), al))])
}

/// The items of the indented run from `p`, and the line after it.
pub open spec fn nested_from(ls: Seq<Seq<char>>, al: Seq<(Seq<char>, Seq<char>)>, p: int) -> (Seq<SNode>, int)
    decreases ls.len() - p,
{
    if p < 0 || p >= ls.len() || !has_prefix(ls[p], "  "@) {
        (Seq::empty(), p)
    } else {
        let t = trim_start(ls[p]);
        if t.len() == 0 {
            nested_from(ls, al, p + 1)
        } else if spec_is_unordered_item(t) {
            let rest = nested_from(ls, al, p + 1);
            (seq![simple_item(bullet_text(t), al)] + rest.0, rest.1)
        } else if spec_is_ordered_item(t) {
            let rest = nested_from(ls, al, p + 1);
            (seq![simple_item(spec_ordered_parts(t).1, al)] + rest.0, rest.1)
        } else {
            (Seq::empty(), p)
        }
    }
}

pub proof fn lemma_nested_from(ls: Seq<Seq<char>>, al: Seq<(Seq<char>, Seq<char>)>, p: int)
    requires
        0 <= p <= ls.len(),
    ensures
        p <= nested_from(ls, al, p).1 <= ls.len(),
    decreases ls.len() - p,
{
    if p < ls.len() && has_prefix(ls[p], "  "@) {
        lemma_nested_from(ls, al, p + 1);
    }
}

/// The line is an item of the list being read.
pub open spec fn is_item(l: Seq<char>, ordered: bool) -> bool {
    if ordered {
        spec_is_ordered_item(l)
    } else {
        spec_is_unordered_item(l)
    }
}

/// The items of the list from `p`, each with its indented sub-items, and the line after it.
pub open spec fn items_from(ls: Seq<Seq<char>>, al: Seq<(Seq<char>, Seq<char>)>, p: int, ordered: bool) -> (Seq<SNode>, int)
    decreases ls.len() - p,
{
    if p < 0 || p >= ls.len() || !is_item(ls[p], ordered) {
        (Seq::empty(), p)
    } else {
        let text = if ordered {
            spec_ordered_parts(ls[p]).1
        } else {
            bullet_text(ls[p])
        };
        let para = para_node(spec_parse_inline(trim(text), al));
        let (nested, q) = nested_from(ls, al, p + 1);
        proof {
            lemma_nested_from(ls, al, p + 1);
        }
        let blocks = if nested.len() > 0 {
            seq![para, list_node(nested, false)]
        } else {
            seq![para]
        };
        let rest = items_from(ls, al, q, ordered);
        (seq![item_node(blocks)] + rest.0, rest.1)
    }
}

pub proof fn lemma_items_from(ls: Seq<Seq<char>>, al: Seq<(Seq<char>, Seq<char>)>, p: int, ordered: bool)
    requires
        0 <= p <= ls.len(),
    ensures
        p <= items_from(ls, al, p, ordered).1 <= ls.len(),
    decreases ls.len() - p,
{
    if p < ls.len() && is_item(ls[p], ordered) {
        lemma_nested_from(ls, al, p + 1);
        lemma_items_from(ls, al, nested_from(ls, al, p + 1).1, ordered);
    }
}

// ------------------------------------------------------------------
// Blocks
// ------------------------------------------------------------------

/// One step of the block reader: it fails (on a line it cannot take: a heading the
/// heading reader refuses, `#+HTML:` markup the HTML reader cannot take, or a paragraph
/// that would not advance), skips lines, or gives a node, with the line to go on from.
pub enum BlockStep {
    Fail,
    Skip(int),
    Push(SNode, int),
}

/// The step of the block reader at line `p`; `started` tells whether a node was given already.
#[verifier::opaque]
pub open spec fn block_step(ls: Seq<Seq<char>>, al: Seq<(Seq<char>, Seq<char>)>, p: int, started: bool) -> BlockStep {
    let line = ls[p];
    let t = trim(line);
    if t.len() == 0 {
        if started {
            BlockStep::Push(node_of("blankLine"@), p + 1)
        } else {
            BlockStep::Skip(p + 1)
        }
    } else if heading_refused(line) {
        BlockStep::Fail
    } else if spec_parse_heading(line) is Some {
        heading_step(ls, al, p)
    } else {
        keyword_step(ls, al, p)
    }
}

/// The step at a heading line: a skipped section, or a heading node.
pub open spec fn heading_step(ls: Seq<Seq<char>>, al: Seq<(Seq<char>, Seq<char>)>, p: int) -> BlockStep {
    let (d, title, tags) = spec_parse_heading(ls[p])->0;
    if spec_should_skip_section(tags) {
        match skip_end(ls, p + 1, d) {
            Some(q) => BlockStep::Skip(q),
            None => BlockStep::Fail,
        }
    } else {
        BlockStep::Push(heading_node(d, title, tags, al), p + 1)
    }
}

/// The step at a line that is neither blank nor a heading: blocks and keyword lines.
pub open spec fn keyword_step(ls: Seq<Seq<char>>, al: Seq<(Seq<char>, Seq<char>)>, p: int) -> BlockStep {
    let t = trim(ls[p]);
    if has_prefix(str_lowercase(t), "#+begin_"@) {
        let (n, q) = block_at(ls, al, p);
        BlockStep::Push(n, q)
    } else if spec_kw(t, "JSX"@) is Some {
        BlockStep::Push(node_of("html"@).with_value(trim(spec_kw(t, "JSX"@)->0)), p + 1)
    } else if spec_kw(t, "HTML"@) is Some {
        match spec_html_to_jsx(trim(spec_kw(t, "HTML"@)->0)) {
            Some(j) => BlockStep::Push(node_of("html"@).with_value(j), p + 1),
            None => BlockStep::Fail,
        }
    } else if has_prefix(t, "#+"@) || has_prefix(t, "#-"@) {
        BlockStep::Skip(p + 1)
    } else {
        body_step(ls, al, p)
    }
}

/// A list keeps its kind: a body line starting a bullet item (`- ` or `+ `) gives a list
/// whose `ordered` datum is false, and one starting a numbered item (`1. `) a list whose
/// `ordered` datum is true.
pub proof fn law_org_list_kind(ls: Seq<Seq<char>>, al: Seq<(Seq<char>, Seq<char>)>, p: int)
    requires
        0 <= p < ls.len(),
        !is_colon_line(ls[p]),
    ensures
        spec_is_unordered_item(ls[p]) ==> (body_step(ls, al, p) matches BlockStep::Push(n, _)
            && n.kind == "list"@ && lookup(n.data, "ordered"@) == Some(SValue::Bool(false))),
        !spec_is_unordered_item(ls[p]) && spec_is_ordered_item(ls[p]) ==> (body_step(ls, al, p) matches BlockStep::Push(n, _)
            && n.kind == "list"@ && lookup(n.data, "ordered"@) == Some(SValue::Bool(true))),
{
    let (items, q) = items_from(ls, al, p, spec_is_unordered_item(ls[p]) == false);
    law_data_read_after_write(SNode::empty("list"@).with_children(items), "ordered"@, SValue::Bool(false), "ordered"@);
    law_data_read_after_write(SNode::empty("list"@).with_children(items), "ordered"@, SValue::Bool(true), "ordered"@);
}

/// The step at a line of body text: fixed-width lines, lists and paragraphs.
pub open spec fn body_step(ls: Seq<Seq<char>>, al: Seq<(Seq<char>, Seq<char>)>, p: int) -> BlockStep {
    let line = ls[p];
    if is_colon_line(line) {
        let q = colon_end(ls, p);
        BlockStep::Push(
            node_of("code"@).with_value(join(ls.subrange(p, q).map_values(|l: Seq<char>| colon_text(l)), "\n"@)),
            q,
        )
    } else if spec_is_unordered_item(line) {
        let (items, q) = items_from(ls, al, p, false);
        BlockStep::Push(list_node(items, false), q)
    } else if spec_is_ordered_item(line) {
        let (items, q) = items_from(ls, al, p, true);
        BlockStep::Push(list_node(items, true), q)
    } else {
        match para_end(ls, p) {
            None => BlockStep::Fail,
            Some(q) => if q <= p {
                BlockStep::Fail
            } else {
                let n = para_of(ls.subrange(p, q), al);
                if n.children->0.len() > 0 {
                    BlockStep::Push(n, q)
                } else {
                    BlockStep::Skip(q)
                }
            },
        }
    }
}

/// The blocks of the lines from `p` on; `None` where a step fails.
pub open spec fn blocks_from(ls: Seq<Seq<char>>, al: Seq<(Seq<char>, Seq<char>)>, p: int, started: bool) -> Option<Seq<SNode>>
    decreases ls.len() - p,
{
    if p < 0 || p >= ls.len() {
        Some(Seq::empty())
    } else {
        match block_step(ls, al, p, started) {
            BlockStep::Fail => None,
            BlockStep::Skip(q) => if q <= p || q > ls.len() {
                None
            } else {
                blocks_from(ls, al, q, started)
            },
            BlockStep::Push(n, q) => if q <= p || q > ls.len() {
                None
            } else {
                match blocks_from(ls, al, q, true) {
                    Some(rest) => Some(seq![n] + rest),
                    None => None,
                }
            },
        }
    }
}


pub proof fn lemma_skip_end(ls: Seq<Seq<char>>, p: int, depth: u32)
    requires
        0 <= p <= ls.len(),
    ensures
        skip_end(ls, p, depth) matches Some(q) ==> p <= q <= ls.len(),
    decreases ls.len() - p,
{
    if p < ls.len() && !heading_refused(ls[p]) && !(spec_parse_heading(ls[p]) matches Some((lvl, _, _))
        && lvl <= depth) {
        lemma_skip_end(ls, p + 1, depth);
    }
}

pub proof fn lemma_colon_end(ls: Seq<Seq<char>>, p: int)
    requires
        0 <= p <= ls.len(),
    ensures
        p <= colon_end(ls, p) <= ls.len(),
    decreases ls.len() - p,
{
    if p < ls.len() && is_colon_line(ls[p]) {
        lemma_colon_end(ls, p + 1);
    }
}

pub proof fn lemma_block_close(ls: Seq<Seq<char>>, p: int, ek: Seq<char>)
    requires
        0 <= p <= ls.len(),
    ensures
        p <= block_close(ls, p, ek) <= ls.len(),
    decreases ls.len() - p,
{
    if p < ls.len() && !has_prefix(str_lowercase(trim(ls[p])), "#+end_"@ + ek) {
        lemma_block_close(ls, p + 1, ek);
    }
}

pub proof fn lemma_para_end(ls: Seq<Seq<char>>, p: int)
    requires
        0 <= p <= ls.len(),
    ensures
        para_end(ls, p) matches Some(q) ==> p <= q <= ls.len(),
    decreases ls.len() - p,
{
    if p < ls.len() {
        lemma_para_end(ls, p + 1);
    }
}

/// The tree a parser over `src` gives, from the front matter `fm` and abbreviations
/// `al` read so far; `None` where a step of the block reader fails.
pub open spec fn parse_state(src: Seq<Seq<char>>, fm: Seq<(Seq<char>, SValue)>, al: Seq<(Seq<char>, Seq<char>)>) -> Option<SNode> {
    let (f, a) = spec_directives(fm, al, src);
    match blocks_from(src, a, 0, false) {
        Some(bs) => Some(SNode { data: insert_all(Seq::empty(), f), ..SNode::empty("root"@).with_children(bs) }),
        None => None,
    }
}

/// The blocks read so far followed by those still to come.
pub open spec fn prepend_blocks(a: Seq<SNode>, rest: Option<Seq<SNode>>) -> Option<Seq<SNode>> {
    match rest {
        Some(r) => Some(a + r),
        None => None,
    }
}

/// The syntax tree of an Org document: a root holding the blocks, with the front matter
/// as its data; `None` where a step of the block reader fails (see `BlockStep`).
pub open spec fn spec_parse_org(input: Seq<char>) -> Option<SNode> {
    parse_state(lines(input), Seq::empty(), Seq::empty())
}

// ------------------------------------------------------------------
// The parser
// ------------------------------------------------------------------

/// An Org parser over the lines of one document: the position of the next line, the
/// link abbreviations and the front matter read so far.
pub struct OrgParser {
    lines: Vec<Vec<char>>,
    pos: usize,
    link_aliases: LinkAliases,
    frontmatter: Vec<DataEntry>,
}

/// What one step of the block reader gave.
pub enum NextBlock {
    Fail,
    Skip,
    Push(AstNode),
}

fn one_node(n: AstNode) -> (r: Vec<AstNode>)
    ensures
        nodes_view(r@) == seq![n@],
{
    let mut v: Vec<AstNode> = Vec::new();
    proof {
        lemma_nodes_view_push(v@, n);
        assert(nodes_view(Seq::<AstNode>::empty()) =~= Seq::<SNode>::empty());
    }
    v.push(n);
    assert(v@ =~= Seq::<AstNode>::empty().push(n));
    v
}

fn para_of_inline(text: &[char], al: &LinkAliases) -> (r: AstNode)
    ensures
        r@ == para_node(spec_parse_inline(text@, al@)),
{
    AstNode::new("paragraph").with_children(parse_inline_chars(text, al))
}

/// The trimmed line after its two-character bullet.
fn bullet_text_of(l: &[char]) -> (r: Vec<char>)
    requires
        spec_is_unordered_item(l@),
    ensures
        r@ == bullet_text(l@),
{
    let t = trim_chars(l);
    proof {
        reveal_strlit("- ");
        reveal_strlit("+ ");
    }
    slice(&t, 2, t.len())
}

/// How a line stands in a paragraph: 0 continues it, 1 ends it, 2 stops the reader
/// (a heading line the heading reader refuses).
fn para_line_kind(l: &[char]) -> (r: u8)
    ensures
        r <= 2,
        (r == 0) == (!(trim(l@).len() == 0 || has_prefix(trim(l@), "#+"@) || has_prefix(trim(l@), "#-"@))
            && !heading_refused(l@) && !(spec_parse_heading(l@) is Some || spec_is_unordered_item(l@)
            || spec_is_ordered_item(l@))),
        (r == 2) == (!(trim(l@).len() == 0 || has_prefix(trim(l@), "#+"@) || has_prefix(trim(l@), "#-"@))
            && heading_refused(l@)),
{
    let t = trim_chars(l);
    if t.len() == 0 || starts_with_str(&t, "#+") || starts_with_str(&t, "#-") {
        return 1;
    }
    if is_refused_heading(l) {
        return 2;
    }
    if parse_heading_chars(l).is_some() || is_unordered_item_chars(l) || is_ordered_item_chars(l) {
        return 1;
    }
    0
}

/// A paragraph line with a trailing `\\` removed, and whether it had one.
pub(crate) fn para_part_of(l: &[char]) -> (r: (Vec<char>, bool))
    ensures
        (r.0@, r.1) == para_part(l@),
{
    let t = trim_chars(l);
    if ends_with_str(&t, "\\\\") {
        proof {
            reveal_strlit("\\\\");
        }
        (trim_end_chars(&slice(&t, 0, t.len() - 2)), true)
    } else {
        (t, false)
    }
}

/// How a line stands in an indented run of sub-items: 0 ends the run, 1 is blank,
/// 2 is an unordered item, 3 an ordered item.
fn nested_kind(l: &[char]) -> (r: u8)
    ensures
        r <= 3,
        r == 0 <==> !(has_prefix(l@, "  "@) && (trim_start(l@).len() == 0 || spec_is_unordered_item(trim_start(l@))
            || spec_is_ordered_item(trim_start(l@)))),
        r == 1 <==> has_prefix(l@, "  "@) && trim_start(l@).len() == 0,
        r == 2 <==> has_prefix(l@, "  "@) && trim_start(l@).len() != 0 && spec_is_unordered_item(trim_start(l@)),
        r == 3 <==> has_prefix(l@, "  "@) && trim_start(l@).len() != 0 && !spec_is_unordered_item(trim_start(l@))
            && spec_is_ordered_item(trim_start(l@)),
{
    if !starts_with_str(l, "  ") {
        return 0;
    }
    let t = trim_start_chars(l);
    if t.len() == 0 {
        1
    } else if is_unordered_item_chars(&t) {
        2
    } else if is_ordered_item_chars(&t) {
        3
    } else {
        0
    }
}

fn is_item_line(l: &[char], ordered: bool) -> (r: bool)
    ensures
        r == is_item(l@, ordered),
{
    if ordered {
        is_ordered_item_chars(l)
    } else {
        is_unordered_item_chars(l)
    }
}

/// The smallest indentation of the non-blank lines, if any.
fn min_indent_of(ls: &Vec<Vec<char>>) -> (r: Option<usize>)
    ensures
        match r {
            Some(n) => min_indent(views(ls@)) == Some(n as int),
            None => min_indent(views(ls@)) is None,
        },
{
    let ghost v = views(ls@);
    let mut m: Option<usize> = None;
    let mut i: usize = 0;
    while i < ls.len()
        invariant
            i <= ls@.len(),
            v == views(ls@),
            match m {
                Some(n) => min_indent(v.take(i as int)) == Some(n as int),
                None => min_indent(v.take(i as int)) is None,
            },
        decreases ls.len() - i,
    {
        assert(v.take(i + 1).drop_last() =~= v.take(i as int));
        let l = &ls[i];
        let t = trim_chars(l);
        if t.len() > 0 {
            proof {
                lemma_indent_run(l@, 0, l@.len() as int);
            }
            let mut c: usize = 0;
            while c < l.len() && (l[c] == ' ' || l[c] == '\t')
                invariant
                    c <= l@.len(),
                    indent_run(l@, 0, l@.len() as int) == indent_run(l@, c as int, l@.len() as int),
                decreases l.len() - c,
            {
                c += 1;
            }
            m = match m {
                None => Some(c),
                Some(x) => Some(if c < x {
                    c
                } else {
                    x
                }),
            };
        }
        i += 1;
    }
    assert(v.take(ls@.len() as int) =~= v);
    m
}

/// The lines with their common indentation removed, joined by newlines.
fn dedent_lines(ls: &Vec<Vec<char>>) -> (r: Vec<char>)
    ensures
        r@ == dedent(views(ls@)),
{
    let n = match min_indent_of(ls) {
        Some(x) => x,
        None => 0,
    };
    let ghost v = views(ls@);
    let mut out: Vec<Vec<char>> = Vec::new();
    let mut i: usize = 0;
    while i < ls.len()
        invariant
            i <= ls@.len(),
            v == views(ls@),
            n as int == (match min_indent(v) {
                Some(x) => x,
                None => 0,
            }),
            views(out@) == v.take(i as int).map_values(|l: Seq<char>| spec_strip_prefix_spaces(l, n as int)),
        decreases ls.len() - i,
    {
        let s = strip_prefix_spaces_chars(&ls[i], n);
        proof {
            lemma_views_push(out@, s);
        }
        out.push(s);
        i += 1;
        assert(views(out@) =~= v.take(i as int).map_values(|l: Seq<char>| spec_strip_prefix_spaces(l, n as int)));
    }
    assert(v.take(ls@.len() as int) =~= v);
    join_str(&out, "\n")
}

/// A copy of a line.
fn copy_line(l: &Vec<char>) -> (r: Vec<char>)
    ensures
        r@ == l@,
{
    slice(l, 0, l.len())
}

impl OrgParser {
    /// The lines of the document.
    pub closed spec fn source(&self) -> Seq<Seq<char>> {
        views(self.lines@)
    }

    /// The index of the next line.
    pub closed spec fn at(&self) -> int {
        self.pos as int
    }

    /// The link abbreviations read so far.
    pub closed spec fn aliases(&self) -> Seq<(Seq<char>, Seq<char>)> {
        self.link_aliases@
    }

    /// The front matter read so far.
    pub closed spec fn front(&self) -> Seq<(Seq<char>, SValue)> {
        entries_view(self.frontmatter@)
    }

    /// A parser at the first line of `input`, with nothing read yet.
    pub fn new(input: &str) -> (r: OrgParser)
        ensures
            r.source() == lines(input@),
            r.at() == 0,
            r.aliases() == Seq::<(Seq<char>, Seq<char>)>::empty(),
            r.front() == Seq::<(Seq<char>, SValue)>::empty(),
    {
        let r = OrgParser {
            lines: lines_of(&to_chars(input)),
            pos: 0,
            link_aliases: LinkAliases::new(),
            frontmatter: Vec::new(),
        };
        assert(entries_view(r.frontmatter@) =~= Seq::<(Seq<char>, SValue)>::empty());
        r
    }

    /// Reads the keyword of one line into the front matter and link abbreviations.
    fn process_directive(&mut self, i: usize)
        requires
            i < old(self).lines@.len(),
        ensures
            final(self).lines@ == old(self).lines@,
            final(self).pos == old(self).pos,
            (final(self).front(), final(self).aliases()) == self::directive::spec_directive(
                old(self).front(),
                old(self).aliases(),
                old(self).source()[i as int],
            ),
    {
        apply_directive(&mut self.frontmatter, &mut self.link_aliases, &self.lines[i]);
    }

    /// Skips the section whose heading, at level `depth`, is the current line; false where
    /// a heading on the way is one the heading reader refuses.
    fn skip_section(&mut self, depth: u32) -> (ok: bool)
        requires
            old(self).pos < old(self).lines@.len(),
        ensures
            final(self).lines@ == old(self).lines@,
            final(self).link_aliases@ == old(self).link_aliases@,
            final(self).frontmatter@ == old(self).frontmatter@,
            ok == (skip_end(old(self).source(), old(self).pos + 1, depth) is Some),
            ok ==> skip_end(old(self).source(), old(self).pos + 1, depth) == Some(final(self).pos as int),
            final(self).pos <= final(self).lines@.len(),
    {
        let ghost ls = self.source();
        let n = self.lines.len();
        self.pos = self.pos + 1;
        while self.pos < n
            invariant
                ls == self.source(),
                self.lines@ == old(self).lines@,
                self.link_aliases@ == old(self).link_aliases@,
                self.frontmatter@ == old(self).frontmatter@,
                self.pos <= self.lines@.len(),
                skip_end(ls, old(self).pos + 1, depth) == skip_end(ls, self.pos as int, depth),
                n == self.lines@.len(),
            decreases self.lines@.len() - self.pos,
        {
            let p = self.pos;
            if is_refused_heading(&self.lines[p]) {
                return false;
            }
            match parse_heading_chars(&self.lines[p]) {
                Some((lvl, _, _)) => {
                    if lvl <= depth {
                        return true;
                    }
                },
                None => {},
            }
            self.pos = p + 1;
        }
        true
    }

    /// Reads a run of fixed-width (`: `) lines; gives their text joined by newlines.
    fn parse_colon_block(&mut self) -> (r: Vec<char>)
        requires
            old(self).pos <= old(self).lines@.len(),
        ensures
            final(self).lines@ == old(self).lines@,
            final(self).link_aliases@ == old(self).link_aliases@,
            final(self).frontmatter@ == old(self).frontmatter@,
            final(self).pos == colon_end(old(self).source(), old(self).pos as int),
            r@ == join(
                old(self).source().subrange(old(self).pos as int, final(self).pos as int).map_values(
                    |l: Seq<char>| colon_text(l),
                ),
                "\n"@,
            ),
    {
        let ghost ls = self.source();
        let p0 = self.pos;
        let mut parts: Vec<Vec<char>> = Vec::new();
        proof {
            reveal_strlit(": ");
            reveal_strlit(":");
        }
        while self.pos < self.lines.len() && (starts_with_str(&self.lines[self.pos], ": ") || eq_str(
            &self.lines[self.pos],
            ":",
        ))
            invariant
                ls == self.source(),
                self.lines@ == old(self).lines@,
                self.link_aliases@ == old(self).link_aliases@,
                self.frontmatter@ == old(self).frontmatter@,
                p0 <= self.pos <= self.lines@.len(),
                p0 == old(self).pos,
                colon_end(ls, p0 as int) == colon_end(ls, self.pos as int),
                views(parts@) == ls.subrange(p0 as int, self.pos as int).map_values(|l: Seq<char>| colon_text(l)),
            decreases self.lines@.len() - self.pos,
        {
            let p = self.pos;
            proof {
                reveal_strlit(": ");
            }
            let text = if starts_with_str(&self.lines[p], ": ") {
                slice(&self.lines[p], 2, self.lines[p].len())
            } else {
                Vec::new()
            };
            proof {
                lemma_views_push(parts@, text);
            }
            parts.push(text);
            self.pos = p + 1;
            assert(views(parts@) =~= ls.subrange(p0 as int, self.pos as int).map_values(|l: Seq<char>| colon_text(l)));
        }
        join_str(&parts, "\n")
    }

    /// Reads a paragraph from the current line; `None` where a heading on the way is one
    /// the heading reader refuses.
    fn parse_paragraph(&mut self) -> (r: Option<(AstNode, bool)>)
        requires
            old(self).pos <= old(self).lines@.len(),
        ensures
            final(self).lines@ == old(self).lines@,
            final(self).link_aliases@ == old(self).link_aliases@,
            final(self).frontmatter@ == old(self).frontmatter@,
            r is None <==> para_end(old(self).source(), old(self).pos as int) is None,
            r matches Some((n, lb)) ==> para_end(old(self).source(), old(self).pos as int) == Some(final(self).pos as int)
                && n@ == para_of(old(self).source().subrange(old(self).pos as int, final(self).pos as int), old(self).aliases())
                && lb == any_break(old(self).source().subrange(old(self).pos as int, final(self).pos as int)),
            final(self).pos <= final(self).lines@.len(),
    {
        let ghost ls = self.source();
        let p0 = self.pos;
        let mut parts: Vec<Vec<char>> = Vec::new();
        let mut had_lb = false;
        while self.pos < self.lines.len() && para_line_kind(&self.lines[self.pos]) == 0
            invariant
                ls == self.source(),
                self.lines@ == old(self).lines@,
                self.link_aliases@ == old(self).link_aliases@,
                self.frontmatter@ == old(self).frontmatter@,
                p0 <= self.pos <= self.lines@.len(),
                p0 == old(self).pos,
                para_end(ls, p0 as int) == para_end(ls, self.pos as int),
                views(parts@) == ls.subrange(p0 as int, self.pos as int).map_values(|l: Seq<char>| para_part(l).0),
                had_lb == any_break(ls.subrange(p0 as int, self.pos as int)),
            decreases self.lines@.len() - self.pos,
        {
            let p = self.pos;
            let (text, lb) = para_part_of(&self.lines[p]);
            proof {
                lemma_views_push(parts@, text);
                assert(ls.subrange(p0 as int, p + 1).drop_last() =~= ls.subrange(p0 as int, p as int));
            }
            parts.push(text);
            had_lb = had_lb || lb;
            self.pos = p + 1;
            assert(views(parts@) =~= ls.subrange(p0 as int, self.pos as int).map_values(|l: Seq<char>| para_part(l).0));
        }
        if self.pos < self.lines.len() && para_line_kind(&self.lines[self.pos]) == 2 {
            return None;
        }
        let joined = join_str(&parts, "\n");
        let normalized = collapse_spaces_chars(&joined);
        let content = parse_inline_chars(&normalized, &self.link_aliases);
        let para = if had_lb {
            AstNode::new("paragraph").with_children(content).data_bool("hardLineBreak", true)
        } else {
            AstNode::new("paragraph").with_children(content)
        };
        Some((para, had_lb))
    }

    /// Reads the indented sub-items after a list item.
    fn parse_list_nested(&mut self) -> (r: AstNode)
        requires
            old(self).pos <= old(self).lines@.len(),
        ensures
            final(self).lines@ == old(self).lines@,
            final(self).link_aliases@ == old(self).link_aliases@,
            final(self).frontmatter@ == old(self).frontmatter@,
            final(self).pos == nested_from(old(self).source(), old(self).aliases(), old(self).pos as int).1,
            r@ == list_node(nested_from(old(self).source(), old(self).aliases(), old(self).pos as int).0, false),
            final(self).pos <= final(self).lines@.len(),
    {
        let ghost ls = self.source();
        let ghost al = self.aliases();
        let p0 = self.pos;
        let mut items: Vec<AstNode> = Vec::new();
        assert(nodes_view(items@) =~= Seq::<SNode>::empty());
        assert(nested_from(ls, al, p0 as int).0 =~= nodes_view(items@) + nested_from(ls, al, p0 as int).0);
        while self.pos < self.lines.len() && nested_kind(&self.lines[self.pos]) != 0
            invariant
                ls == self.source(),
                al == self.aliases(),
                self.lines@ == old(self).lines@,
                self.link_aliases@ == old(self).link_aliases@,
                self.frontmatter@ == old(self).frontmatter@,
                p0 <= self.pos <= self.lines@.len(),
                p0 == old(self).pos,
                nested_from(ls, al, p0 as int) == (nodes_view(items@) + nested_from(ls, al, self.pos as int).0,
                    nested_from(ls, al, self.pos as int).1),
            decreases self.lines@.len() - self.pos,
        {
            let p = self.pos;
            let k = nested_kind(&self.lines[p]);
            if k == 1 {
                self.pos = p + 1;
            } else {
                let t = trim_start_chars(&self.lines[p]);
                let text = if k == 2 {
                    bullet_text_of(&t)
                } else {
                    let (_, c) = ordered_parts_chars(&t);
                    c
                };
                let para = para_of_inline(&trim_chars(&text), &self.link_aliases);
                let item = AstNode::new("listItem").with_children(one_node(para));
                let ghost before = nodes_view(items@);
                let ghost iv = item@;
                proof {
                    lemma_nodes_view_push(items@, item);
                    assert(before.push(iv) + nested_from(ls, al, p + 1).0 =~= before + (seq![iv] + nested_from(ls, al, p + 1).0));
                }
                items.push(item);
                self.pos = p + 1;
            }
        }
        AstNode::new("list").with_children(items).data_bool("ordered", false)
    }

    /// Reads a list of items of one kind, each with its sub-items.
    fn parse_list(&mut self, ordered: bool) -> (r: AstNode)
        requires
            old(self).pos <= old(self).lines@.len(),
        ensures
            final(self).lines@ == old(self).lines@,
            final(self).link_aliases@ == old(self).link_aliases@,
            final(self).frontmatter@ == old(self).frontmatter@,
            final(self).pos == items_from(old(self).source(), old(self).aliases(), old(self).pos as int, ordered).1,
            r@ == list_node(items_from(old(self).source(), old(self).aliases(), old(self).pos as int, ordered).0, ordered),
            final(self).pos <= final(self).lines@.len(),
    {
        let ghost ls = self.source();
        let ghost al = self.aliases();
        let p0 = self.pos;
        let mut items: Vec<AstNode> = Vec::new();
        assert(nodes_view(items@) =~= Seq::<SNode>::empty());
        assert(items_from(ls, al, p0 as int, ordered).0 =~= nodes_view(items@) + items_from(ls, al, p0 as int, ordered).0);
        while self.pos < self.lines.len() && is_item_line(&self.lines[self.pos], ordered)
            invariant
                ls == self.source(),
                al == self.aliases(),
                self.lines@ == old(self).lines@,
                self.link_aliases@ == old(self).link_aliases@,
                self.frontmatter@ == old(self).frontmatter@,
                p0 <= self.pos <= self.lines@.len(),
                p0 == old(self).pos,
                items_from(ls, al, p0 as int, ordered) == (nodes_view(items@) + items_from(ls, al, self.pos as int, ordered).0,
                    items_from(ls, al, self.pos as int, ordered).1),
            decreases self.lines@.len() - self.pos,
        {
            let p = self.pos;
            let text = if ordered {
                let (_, c) = ordered_parts_chars(&self.lines[p]);
                c
            } else {
                bullet_text_of(&self.lines[p])
            };
            let para = para_of_inline(&trim_chars(&text), &self.link_aliases);
            self.pos = p + 1;
            let nested = self.parse_list_nested();
            proof {
                lemma_nested_from(ls, al, p + 1);
            }
            let has_nested = match &nested.children {
                Some(c) => {
                    proof {
                        lemma_nodes_view_index(c@);
                    }
                    c.len() > 0
                },
                None => false,
            };
            let ghost pv = para@;
            let ghost nv = nested@;
            let mut blocks = one_node(para);
            if has_nested {
                proof {
                    lemma_nodes_view_push(blocks@, nested);
                }
                blocks.push(nested);
                assert(nodes_view(blocks@) =~= seq![pv, nv]);
            }
            assert(nodes_view(blocks@) == (if nested_from(ls, al, p + 1).0.len() > 0 {
                seq![pv, list_node(nested_from(ls, al, p + 1).0, false)]
            } else {
                seq![pv]
            }));
            let item = AstNode::new("listItem").with_children(blocks);
            let ghost before = nodes_view(items@);
            let ghost iv = item@;
            let ghost q = self.pos as int;
            proof {
                lemma_nodes_view_push(items@, item);
                assert(before.push(iv) + items_from(ls, al, q, ordered).0 =~= before + (seq![iv] + items_from(ls, al, q, ordered).0));
            }
            items.push(item);
        }
        AstNode::new("list").with_children(items).data_bool("ordered", ordered)
    }

    fn parse_unordered_list(&mut self) -> (r: AstNode)
        requires
            old(self).pos <= old(self).lines@.len(),
        ensures
            final(self).lines@ == old(self).lines@,
            final(self).link_aliases@ == old(self).link_aliases@,
            final(self).frontmatter@ == old(self).frontmatter@,
            final(self).pos == items_from(old(self).source(), old(self).aliases(), old(self).pos as int, false).1,
            r@ == list_node(items_from(old(self).source(), old(self).aliases(), old(self).pos as int, false).0, false),
            final(self).pos <= final(self).lines@.len(),
    {
        self.parse_list(false)
    }

    fn parse_ordered_list(&mut self) -> (r: AstNode)
        requires
            old(self).pos <= old(self).lines@.len(),
        ensures
            final(self).lines@ == old(self).lines@,
            final(self).link_aliases@ == old(self).link_aliases@,
            final(self).frontmatter@ == old(self).frontmatter@,
            final(self).pos == items_from(old(self).source(), old(self).aliases(), old(self).pos as int, true).1,
            r@ == list_node(items_from(old(self).source(), old(self).aliases(), old(self).pos as int, true).0, true),
            final(self).pos <= final(self).lines@.len(),
    {
        self.parse_list(true)
    }
}


fn exports_none(e: &Option<String>) -> (r: bool)
    ensures
        r == (crate::parser::org::block::opt_view(*e) == Some("none"@)),
{
    match e {
        Some(v) => eq_str(&to_chars(v.as_str()), "none"),
        None => false,
    }
}

fn comment_exports_none() -> (r: AstNode)
    ensures
        r@ == node_of("comment"@).with_value(":exports none"@),
{
    AstNode::new("comment").with_value(":exports none")
}

/// The children of a quote block.
fn quote_nodes(ls: &Vec<Vec<char>>, al: &LinkAliases) -> (r: Vec<AstNode>)
    ensures
        nodes_view(r@) == quote_children(views(ls@), al@),
{
    let ghost v = views(ls@);
    let mut out: Vec<AstNode> = Vec::new();
    let mut i: usize = 0;
    while i < ls.len()
        invariant
            i <= ls@.len(),
            v == views(ls@),
            nodes_view(out@) == quote_children(v.take(i as int), al@),
        decreases ls.len() - i,
    {
        let t = trim_chars(&ls[i]);
        let n = if t.len() == 0 {
            AstNode::new("blankLine")
        } else {
            para_of_inline(&t, al)
        };
        let ghost before = nodes_view(out@);
        proof {
            lemma_nodes_view_push(out@, n);
        }
        out.push(n);
        i += 1;
        assert(nodes_view(out@) =~= quote_children(v.take(i as int), al@));
    }
    assert(v.take(ls@.len() as int) =~= v);
    out
}

/// The tag values of a heading.
fn tag_data(tags: &Vec<Vec<char>>) -> (r: Vec<DataValue>)
    ensures
        values_view(r@) == views(tags@).map_values(|t: Seq<char>| SValue::Str(t)),
{
    let ghost v = views(tags@);
    let mut out: Vec<DataValue> = Vec::new();
    let mut i: usize = 0;
    while i < tags.len()
        invariant
            i <= tags@.len(),
            v == views(tags@),
            values_view(out@) == v.take(i as int).map_values(|t: Seq<char>| SValue::Str(t)),
        decreases tags.len() - i,
    {
        let x = DataValue::Str(from_chars(&tags[i]));
        proof {
            lemma_values_view_push(out@, x);
        }
        out.push(x);
        i += 1;
        assert(values_view(out@) =~= v.take(i as int).map_values(|t: Seq<char>| SValue::Str(t)));
    }
    assert(v.take(tags@.len() as int) =~= v);
    out
}

impl OrgParser {
    /// Reads the block that starts at the current `#+begin_...` line.
    fn parse_block(&mut self) -> (r: AstNode)
        requires
            old(self).pos < old(self).lines@.len(),
        ensures
            final(self).lines@ == old(self).lines@,
            final(self).link_aliases@ == old(self).link_aliases@,
            final(self).frontmatter@ == old(self).frontmatter@,
            (r@, final(self).pos as int) == block_at(old(self).source(), old(self).aliases(), old(self).pos as int),
            final(self).pos <= final(self).lines@.len(),
    {
        let ghost ls = self.source();
        let ghost al = self.aliases();
        let p0 = self.pos;
        let n = self.lines.len();
        let line_s = from_chars(&self.lines[p0]);
        let bt = parse_block_begin(line_s.as_str());
        let ek = bt.end_keyword();
        let mut close = to_chars("#+end_");
        push_str(&mut close, ek.as_str());
        self.pos = p0 + 1;
        let mut body: Vec<Vec<char>> = Vec::new();
        proof {
            lemma_block_close(ls, p0 + 1, ek@);
        }
        while self.pos < n && !starts_with(&lowercase(&trim_chars(&self.lines[self.pos])), &close)
            invariant
                ls == self.source(),
                al == self.aliases(),
                n == self.lines@.len(),
                self.lines@ == old(self).lines@,
                self.link_aliases@ == old(self).link_aliases@,
                self.frontmatter@ == old(self).frontmatter@,
                p0 + 1 <= self.pos <= n,
                p0 == old(self).pos,
                close@ == "#+end_"@ + ek@,
                block_close(ls, p0 + 1, ek@) == block_close(ls, self.pos as int, ek@),
                views(body@) == ls.subrange(p0 + 1, self.pos as int),
            decreases n - self.pos,
        {
            let p = self.pos;
            let l = copy_line(&self.lines[p]);
            proof {
                lemma_views_push(body@, l);
            }
            body.push(l);
            self.pos = p + 1;
            assert(views(body@) =~= ls.subrange(p0 + 1, self.pos as int));
        }
        if self.pos < n {
            self.pos = self.pos + 1;
        }
        match bt {
            BlockType::Src(opts) => {
                if exports_none(&opts.exports) {
                    comment_exports_none()
                } else {
                    let content = from_chars(&dedent_lines(&body));
                    AstNode::new("code").with_value(content.as_str()).data_str("lang", opts.lang.as_str())
                }
            },
            BlockType::Example => {
                let content = from_chars(&dedent_lines(&body));
                AstNode::new("code").with_value(content.as_str()).data_str("block_type", "example")
            },
            BlockType::Quote => AstNode::new("blockquote").with_children(quote_nodes(&body, &self.link_aliases)),
            BlockType::Center => para_of_inline(&join_str(&body, " "), &self.link_aliases),
            BlockType::Export(opts) => {
                if exports_none(&opts.exports) {
                    comment_exports_none()
                } else {
                    let content = from_chars(&join_str(&body, "\n"));
                    AstNode::new("export").with_value(content.as_str()).data_str("lang", opts.export_type.as_str())
                }
            },
            BlockType::Unknown(_) => para_of_inline(&join_str(&body, " "), &self.link_aliases),
        }
    }

    /// One step of the block reader at the current line.
    fn next_block(&mut self, started: bool) -> (r: NextBlock)
        requires
            old(self).pos < old(self).lines@.len(),
        ensures
            final(self).lines@ == old(self).lines@,
            final(self).link_aliases@ == old(self).link_aliases@,
            final(self).frontmatter@ == old(self).frontmatter@,
            match r {
                NextBlock::Fail => block_step(old(self).source(), old(self).aliases(), old(self).pos as int, started) is Fail,
                NextBlock::Skip => block_step(old(self).source(), old(self).aliases(), old(self).pos as int, started)
                    == BlockStep::Skip(final(self).pos as int),
                NextBlock::Push(n) => block_step(old(self).source(), old(self).aliases(), old(self).pos as int, started)
                    == BlockStep::Push(n@, final(self).pos as int),
            },
            !(r is Fail) ==> old(self).pos < final(self).pos <= final(self).lines@.len(),
    {
        reveal(block_step);
        let ghost ls = self.source();
        let ghost al = self.aliases();
        let p = self.pos;
        let n = self.lines.len();
        let t = trim_chars(&self.lines[p]);
        if t.len() == 0 {
            self.pos = p + 1;
            if started {
                return NextBlock::Push(AstNode::new("blankLine"));
            } else {
                return NextBlock::Skip;
            }
        }
        if is_refused_heading(&self.lines[p]) {
            return NextBlock::Fail;
        }
        match parse_heading_chars(&self.lines[p]) {
            Some((d, title, tags)) => {
                if should_skip_chars(&tags) {
                    proof {
                        lemma_skip_end(ls, p + 1, d);
                    }
                    if self.skip_section(d) {
                        return NextBlock::Skip;
                    } else {
                        return NextBlock::Fail;
                    }
                }
                let content = parse_inline_chars(&title, &self.link_aliases);
                let h = AstNode::new("heading").with_children(content).data_num("depth", d as u64).data_list_val(
                    "tags",
                    tag_data(&tags),
                );
                self.pos = p + 1;
                return NextBlock::Push(h);
            },
            None => {},
        }
        self.keyword_block(&t)
    }

    /// The step at a line that is neither blank nor a heading; `t` is the trimmed line.
    fn keyword_block(&mut self, t: &Vec<char>) -> (r: NextBlock)
        requires
            old(self).pos < old(self).lines@.len(),
            t@ == trim(old(self).source()[old(self).pos as int]),
        ensures
            final(self).lines@ == old(self).lines@,
            final(self).link_aliases@ == old(self).link_aliases@,
            final(self).frontmatter@ == old(self).frontmatter@,
            match r {
                NextBlock::Fail => keyword_step(old(self).source(), old(self).aliases(), old(self).pos as int) is Fail,
                NextBlock::Skip => keyword_step(old(self).source(), old(self).aliases(), old(self).pos as int)
                    == BlockStep::Skip(final(self).pos as int),
                NextBlock::Push(n) => keyword_step(old(self).source(), old(self).aliases(), old(self).pos as int)
                    == BlockStep::Push(n@, final(self).pos as int),
            },
            !(r is Fail) ==> old(self).pos < final(self).pos <= final(self).lines@.len(),
    {
        let ghost ls = self.source();
        let p = self.pos;
        let n = self.lines.len();
        if starts_with_str(&lowercase(t), "#+begin_") {
            proof {
                lemma_block_close(ls, p + 1, spec_end_keyword(spec_block_begin(ls[p as int])));
            }
            let b = self.parse_block();
            return NextBlock::Push(b);
        }
        if let Some(v) = kw_chars(t, &to_chars("JSX")) {
            let vt = from_chars(&trim_chars(&v));
            self.pos = p + 1;
            return NextBlock::Push(AstNode::new("html").with_value(vt.as_str()));
        }
        if let Some(v) = kw_chars(t, &to_chars("HTML")) {
            let vt = from_chars(&trim_chars(&v));
            match try_html_to_jsx(vt.as_str()) {
                Some(j) => {
                    self.pos = p + 1;
                    return NextBlock::Push(AstNode::new("html").with_value(j.as_str()));
                },
                None => {
                    return NextBlock::Fail;
                },
            }
        }
        if starts_with_str(t, "#+") || starts_with_str(t, "#-") {
            self.pos = p + 1;
            return NextBlock::Skip;
        }
        self.body_block()
    }

    /// The step at a line of body text.
    fn body_block(&mut self) -> (r: NextBlock)
        requires
            old(self).pos < old(self).lines@.len(),
        ensures
            final(self).lines@ == old(self).lines@,
            final(self).link_aliases@ == old(self).link_aliases@,
            final(self).frontmatter@ == old(self).frontmatter@,
            match r {
                NextBlock::Fail => body_step(old(self).source(), old(self).aliases(), old(self).pos as int) is Fail,
                NextBlock::Skip => body_step(old(self).source(), old(self).aliases(), old(self).pos as int)
                    == BlockStep::Skip(final(self).pos as int),
                NextBlock::Push(n) => body_step(old(self).source(), old(self).aliases(), old(self).pos as int)
                    == BlockStep::Push(n@, final(self).pos as int),
            },
            !(r is Fail) ==> old(self).pos < final(self).pos <= final(self).lines@.len(),
    {
        let ghost ls = self.source();
        let ghost al = self.aliases();
        let p = self.pos;
        proof {
            reveal_strlit(": ");
            reveal_strlit(":");
        }
        if starts_with_str(&self.lines[p], ": ") || eq_str(&self.lines[p], ":") {
            proof {
                lemma_colon_end(ls, p + 1);
            }
            let code = from_chars(&self.parse_colon_block());
            return NextBlock::Push(AstNode::new("code").with_value(code.as_str()));
        }
        if is_unordered_item_chars(&self.lines[p]) {
            proof {
                lemma_nested_from(ls, al, p + 1);
                lemma_items_from(ls, al, nested_from(ls, al, p + 1).1, false);
            }
            let l = self.parse_unordered_list();
            return NextBlock::Push(l);
        }
        if is_ordered_item_chars(&self.lines[p]) {
            proof {
                lemma_nested_from(ls, al, p + 1);
                lemma_items_from(ls, al, nested_from(ls, al, p + 1).1, true);
            }
            let l = self.parse_ordered_list();
            return NextBlock::Push(l);
        }
        proof {
            lemma_para_end(ls, p as int);
        }
        match self.parse_paragraph() {
            None => NextBlock::Fail,
            Some((para, _)) => {
                if self.pos <= p {
                    return NextBlock::Fail;
                }
                let nonempty = match &para.children {
                    Some(c) => {
                        proof {
                            lemma_nodes_view_index(c@);
                        }
                        c.len() > 0
                    },
                    None => false,
                };
                if nonempty {
                    NextBlock::Push(para)
                } else {
                    NextBlock::Skip
                }
            },
        }
    }

    /// Reads the blocks from the current line to the end; `None` where a step of the block
    /// reader fails.
    fn parse_blocks(&mut self) -> (r: Option<Vec<AstNode>>)
        requires
            old(self).pos <= old(self).lines@.len(),
        ensures
            final(self).lines@ == old(self).lines@,
            final(self).link_aliases@ == old(self).link_aliases@,
            final(self).frontmatter@ == old(self).frontmatter@,
            match r {
                Some(bs) => blocks_from(old(self).source(), old(self).aliases(), old(self).pos as int, false)
                    == Some(nodes_view(bs@)),
                None => blocks_from(old(self).source(), old(self).aliases(), old(self).pos as int, false) is None,
            },
    {
        let ghost ls = self.source();
        let ghost al = self.aliases();
        let ghost p0 = self.pos as int;
        let mut blocks: Vec<AstNode> = Vec::new();
        assert(nodes_view(blocks@) =~= Seq::<SNode>::empty());
        assert(prepend_blocks(nodes_view(blocks@), blocks_from(ls, al, p0, false)) == blocks_from(ls, al, p0, false)) by {
            if let Some(r) = blocks_from(ls, al, p0, false) {
                assert(Seq::<SNode>::empty() + r =~= r);
            }
        }
        while self.pos < self.lines.len()
            invariant
                ls == self.source(),
                al == self.aliases(),
                self.lines@ == old(self).lines@,
                self.link_aliases@ == old(self).link_aliases@,
                self.frontmatter@ == old(self).frontmatter@,
                self.pos <= self.lines@.len(),
                p0 == old(self).pos,
                blocks_from(ls, al, p0, false) == prepend_blocks(nodes_view(blocks@), blocks_from(ls, al, self.pos as int, blocks@.len() > 0)),
            decreases self.lines@.len() - self.pos,
        {
            proof {
                lemma_nodes_view_index(blocks@);
            }
            let p = self.pos;
            let started = blocks.len() > 0;
            match self.next_block(started) {
                NextBlock::Fail => {
                    assert(blocks_from(ls, al, p as int, started) is None);
                    return None;
                },
                NextBlock::Skip => {},
                NextBlock::Push(n) => {
                    let ghost before = nodes_view(blocks@);
                    let ghost nv = n@;
                    let ghost q = self.pos as int;
                    proof {
                        lemma_nodes_view_push(blocks@, n);
                        if let Some(r) = blocks_from(ls, al, q, true) {
                            assert(before.push(nv) + r =~= before + (seq![nv] + r));
                        }
                    }
                    blocks.push(n);
                },
            }
        }
        assert(nodes_view(blocks@) + Seq::<SNode>::empty() =~= nodes_view(blocks@));
        Some(blocks)
    }

    /// Reads the document: every keyword line first, then the blocks from the first line.
    pub fn parse(self) -> (r: Result<AstNode, Error>)
        requires
            parse_state(self.source(), self.front(), self.aliases()) is Some,
        ensures
            r matches Ok(n) && Some(n@) == parse_state(self.source(), self.front(), self.aliases()),
    {
        match self.try_parse() {
            Some(n) => Ok(n),
            None => Err(Error::InvalidInput(String::new())),
        }
    }

    /// Reads the document; `None` exactly where a step of the block reader fails.
    pub fn try_parse(self) -> (r: Option<AstNode>)
        ensures
            match r {
                Some(n) => Some(n@) == parse_state(self.source(), self.front(), self.aliases()),
                None => parse_state(self.source(), self.front(), self.aliases()) is None,
            },
    {
        let ghost ls = self.source();
        let ghost fm0 = self.front();
        let ghost al0 = self.aliases();
        let mut me = self;
        let n = me.lines.len();
        let mut i: usize = 0;
        assert(ls.take(0) =~= Seq::<Seq<char>>::empty());
        while i < n
            invariant
                ls == me.source(),
                n == me.lines@.len(),
                i <= n,
                (me.front(), me.aliases()) == spec_directives(fm0, al0, ls.take(i as int)),
            decreases n - i,
        {
            me.process_directive(i);
            assert(ls.take(i + 1).drop_last() =~= ls.take(i as int));
            i += 1;
        }
        assert(ls.take(n as int) =~= ls);
        me.pos = 0;
        match me.parse_blocks() {
            Some(bs) => Some(AstNode::root(bs).with_data_map(me.frontmatter)),
            None => None,
        }
    }
}

/// Parses an Org document into its syntax tree.
pub fn parse_org(input: &str) -> (r: Result<AstNode, Error>)
    requires
        spec_parse_org(input@) is Some,
    ensures
        r matches Ok(n) && Some(n@) == spec_parse_org(input@),
{
    OrgParser::new(input).parse()
}

/// Parses an Org document; `None` exactly where a step of the block reader fails.
pub fn try_parse_org(input: &str) -> (r: Option<AstNode>)
    ensures
        match r {
            Some(n) => Some(n@) == spec_parse_org(input@),
            None => spec_parse_org(input@) is None,
        },
{
    OrgParser::new(input).try_parse()
}

} // verus!
