//! The MDX parser: front matter, export and JSX blocks set aside as placeholders, the
//! Markdown tree brought into the syntax tree, and the placeholders put back.
use vstd::prelude::*;
use crate::ast::node::{
    entries_view, lemma_nodes_view_index, lemma_nodes_view_push, nodes_view, DataEntry, AstNode, SNode,
    SValue,
};
use crate::parser::jsx::{
    block_end_from, block_start_from, find_jsx_block_end, find_jsx_block_start, is_blank_line,
    jsx_line_chars, spec_is_jsx_line, str_views,
};
use crate::parser::org::block::{exports_scan, first_word, first_word_of, scan_exports};
use crate::renderer::html_jsx::{spec_html_to_jsx, try_html_to_jsx};
use crate::ast::node::{insert_all, law_data_read_after_write, lemma_entries_view_index, lemma_nodes_view_append, lookup};
use crate::error::Error;
use markdown_tree::{markdown_tree, mdast_of};
use yaml::{extract_frontmatter, frontmatter_dates_ok, spec_extract_frontmatter, try_extract_frontmatter};
use crate::text::{
    dec, dec_chars, ends_with_str, eq, eq_str, from_chars, has_prefix, has_suffix, join, join_str,
    lemma_views_push, lines, lines_of, lowercase, push_all, push_str, slice, split_whitespace,
    starts_with_str, str_lowercase, to_chars, trim, trim_chars, views, words,
};

pub mod markdown_tree;
pub mod yaml;

verus! {

// ------------------------------------------------------------------
// Export, example and JSX blocks
// ------------------------------------------------------------------

/// A block set aside before the Markdown parse: its type (`EXAMPLE`, `jsx` or an export
/// type), its text, and its `:exports` option.
pub struct ExportBlock {
    pub export_type: String,
    pub content: String,
    pub exports: Option<String>,
}

pub struct SExport {
    pub export_type: Seq<char>,
    pub content: Seq<char>,
    pub exports: Option<Seq<char>>,
}

impl View for ExportBlock {
    type V = SExport;

    open spec fn view(&self) -> SExport {
        SExport {
            export_type: self.export_type@,
            content: self.content@,
            exports: match self.exports {
                Some(e) => Some(e@),
                None => None,
            },
        }
    }
}

pub open spec fn exports_view(v: Seq<ExportBlock>) -> Seq<SExport> {
    v.map_values(|e: ExportBlock| e@)
}

/// The line standing for the block set aside as number `idx`.
pub open spec fn placeholder(idx: nat) -> Seq<char> {
    "EXPORTBLOCKPLACEHOLDER"@ + dec(idx)
}

/// The line closing an example block, at or after `j`, or the end.
pub open spec fn example_close(ls: Seq<Seq<char>>, j: int) -> int
    decreases ls.len() - j,
{
    if j < 0 || j >= ls.len() {
        j
    } else if str_lowercase(trim(ls[j])) == "{/* #+end_example */}"@ {
        j
    } else {
        example_close(ls, j + 1)
    }
}

/// The line closing an export block, at or after `j`, or the end.
pub open spec fn export_close(ls: Seq<Seq<char>>, j: int) -> int
    decreases ls.len() - j,
{
    if j < 0 || j >= ls.len() {
        j
    } else if has_prefix(trim(ls[j]), "{/* #+end_export"@) && has_suffix(trim(ls[j]), "*/}"@) {
        j
    } else {
        export_close(ls, j + 1)
    }
}

pub proof fn lemma_closes(ls: Seq<Seq<char>>, j: int)
    requires
        0 <= j <= ls.len(),
    ensures
        j <= example_close(ls, j) <= ls.len(),
        j <= export_close(ls, j) <= ls.len(),
    decreases ls.len() - j,
{
    if j < ls.len() {
        lemma_closes(ls, j + 1);
    }
}

/// The first non-blank line at or after `s`, stopping at `e`.
pub open spec fn skip_blank_fwd(ls: Seq<Seq<char>>, s: int, e: int) -> int
    decreases e - s,
{
    if s < e && 0 <= s < ls.len() && is_blank_line(ls[s]) {
        skip_blank_fwd(ls, s + 1, e)
    } else {
        s
    }
}

/// The last non-blank line at or before `e`, stopping at `s`.
pub open spec fn skip_blank_bwd(ls: Seq<Seq<char>>, s: int, e: int) -> int
    decreases e - s,
{
    if e > s && 0 <= e < ls.len() && is_blank_line(ls[e]) {
        skip_blank_bwd(ls, s, e - 1)
    } else {
        e
    }
}

/// The text of an example block: without the fence lines when it is fenced.
pub open spec fn example_content(cl: Seq<Seq<char>>) -> Seq<char> {
    if cl.len() >= 2 && trim(cl[0]) == "```"@ && trim(cl[cl.len() - 1]) == "```"@ {
        join(cl.subrange(1, cl.len() - 1), "\n"@)
    } else {
        join(cl, "\n"@)
    }
}

/// What the line at `i` gives: the lines to keep, the block set aside (numbered `idx`),
/// and the line to go on from.
pub open spec fn export_step(ls: Seq<Seq<char>>, i: int, idx: nat) -> (Seq<Seq<char>>, Option<SExport>, int) {
    let t = trim(ls[i]);
    if str_lowercase(t) == "{/* #+begin_example */}"@ {
        let q = example_close(ls, i + 1);
        (seq![placeholder(idx)], Some(SExport {
            export_type: "EXAMPLE"@,
            content: example_content(ls.subrange(i + 1, q)),
            exports: None,
        }), if q < ls.len() {
            q + 1
        } else {
            q
        })
    } else if has_prefix(t, "{/* #+begin_export"@) && has_suffix(t, "*/}"@) {
        let parts = words(trim(t.subrange(18, t.len() - 3)));
        let q = export_close(ls, i + 1);
        (seq![placeholder(idx)], Some(SExport {
            export_type: first_word(parts),
            content: join(ls.subrange(i + 1, q), "\n"@),
            exports: exports_scan(parts, 1, None),
        }), if q < ls.len() {
            q + 1
        } else {
            q
        })
    } else if spec_is_jsx_line(t) {
        let s0 = block_start_from(ls, i);
        let e0 = block_end_from(ls, i);
        let s1 = skip_blank_fwd(ls, s0, e0);
        let e1 = skip_blank_bwd(ls, s1, e0);
        let content = join(ls.subrange(s1, e1 + 1), "\n"@);
        if trim(content).len() > 0 {
            (seq![placeholder(idx)], Some(SExport { export_type: "jsx"@, content, exports: None }), e1 + 1)
        } else {
            (ls.subrange(i, e1 + 1), None, e1 + 1)
        }
    } else {
        (seq![ls[i]], None, i + 1)
    }
}

/// The lines kept and the blocks set aside, reading from line `i` with `res` and `ex`
/// gathered so far.
pub open spec fn export_scan(ls: Seq<Seq<char>>, i: int, res: Seq<Seq<char>>, ex: Seq<SExport>) -> (Seq<Seq<char>>, Seq<SExport>)
    decreases ls.len() - i,
{
    if i < 0 || i >= ls.len() {
        (res, ex)
    } else {
        let (keep, blk, next) = export_step(ls, i, ex.len());
        if next <= i || next > ls.len() {
            (res, ex)
        } else {
            export_scan(ls, next, res + keep, match blk {
                Some(b) => ex.push(b),
                None => ex,
            })
        }
    }
}

/// The body with example, export and JSX blocks replaced by placeholder lines, and the
/// blocks in order.
pub open spec fn spec_extract_export_blocks(body: Seq<char>) -> (Seq<char>, Seq<SExport>) {
    let (res, ex) = export_scan(lines(body), 0, Seq::empty(), Seq::empty());
    (join(res, "\n"@), ex)
}


pub proof fn lemma_block_start(ls: Seq<Seq<char>>, s: int)
    requires
        0 <= s,
    ensures
        0 <= block_start_from(ls, s) <= s,
    decreases s,
{
    if s > 0 {
        let prev = ls[s - 1];
        if crate::parser::jsx::is_import_export(prev) {
            lemma_block_start(ls, s - 1);
        } else if is_blank_line(prev) {
            crate::parser::jsx::lemma_skip_blank_back(ls, s - 1);
            let cand = crate::parser::jsx::skip_blank_back(ls, s - 1);
            if cand < s && crate::parser::jsx::is_import_export(ls[cand]) {
                lemma_block_start(ls, cand);
            }
        }
    }
}

pub proof fn lemma_block_end(ls: Seq<Seq<char>>, e: int)
    requires
        0 <= e < ls.len(),
    ensures
        e <= block_end_from(ls, e) < ls.len(),
    decreases ls.len() - e,
{
    if e + 1 < ls.len() {
        let next = trim(ls[e + 1]);
        if spec_is_jsx_line(next) {
            lemma_block_end(ls, e + 1);
        } else if next.len() == 0 && e + 2 < ls.len() && spec_is_jsx_line(trim(ls[e + 2])) {
            lemma_block_end(ls, e + 2);
        }
    }
}

pub proof fn lemma_skip_blank(ls: Seq<Seq<char>>, s: int, e: int)
    requires
        s <= e,
    ensures
        s <= skip_blank_fwd(ls, s, e) <= e,
        s <= skip_blank_bwd(ls, s, e) <= e,
    decreases e - s,
{
    if s < e {
        lemma_skip_blank(ls, s + 1, e);
        lemma_skip_blank(ls, s, e - 1);
    }
}

pub proof fn lemma_fwd_stops(ls: Seq<Seq<char>>, s: int, e: int, k: int)
    requires
        s <= k <= e,
        0 <= k < ls.len(),
        !is_blank_line(ls[k]),
    ensures
        skip_blank_fwd(ls, s, e) <= k,
    decreases e - s,
{
    if s < k {
        lemma_fwd_stops(ls, s + 1, e, k);
    }
}

pub proof fn lemma_bwd_stops(ls: Seq<Seq<char>>, s: int, e: int, k: int)
    requires
        s <= k <= e,
        0 <= k < ls.len(),
        !is_blank_line(ls[k]),
    ensures
        skip_blank_bwd(ls, s, e) >= k,
    decreases e - s,
{
    if k < e {
        lemma_bwd_stops(ls, s, e - 1, k);
    }
}

fn placeholder_line(idx: usize) -> (r: Vec<char>)
    ensures
        r@ == placeholder(idx as nat),
{
    let mut p = to_chars("EXPORTBLOCKPLACEHOLDER");
    push_all(&mut p, &dec_chars(idx as u64));
    p
}

fn copy_lines(ls: &Vec<Vec<char>>, a: usize, b: usize) -> (r: Vec<Vec<char>>)
    requires
        a <= b <= ls@.len(),
    ensures
        views(r@) == views(ls@).subrange(a as int, b as int),
{
    let mut out: Vec<Vec<char>> = Vec::new();
    let mut k = a;
    while k < b
        invariant
            a <= k <= b <= ls@.len(),
            views(out@) == views(ls@).subrange(a as int, k as int),
        decreases b - k,
    {
        let l = slice(&ls[k], 0, ls[k].len());
        assert(l@ =~= ls@[k as int]@);
        proof {
            lemma_views_push(out@, l);
        }
        out.push(l);
        k += 1;
        assert(views(out@) =~= views(ls@).subrange(a as int, k as int));
    }
    out
}

fn example_content_of(cl: &Vec<Vec<char>>) -> (r: Vec<char>)
    ensures
        r@ == example_content(views(cl@)),
{
    let n = cl.len();
    if n >= 2 && eq_str(&trim_chars(&cl[0]), "```") && eq_str(&trim_chars(&cl[n - 1]), "```") {
        join_str(&copy_lines(cl, 1, n - 1), "\n")
    } else {
        join_str(cl, "\n")
    }
}

fn blank(l: &Vec<char>) -> (r: bool)
    ensures
        r == is_blank_line(l@),
{
    trim_chars(l).len() == 0
}

/// What the line at `i` gives: the lines kept, the block set aside, the next line.
fn export_step_at(ls: &Vec<Vec<char>>, refs: &Vec<&str>, i: usize, idx: usize) -> (r: (Vec<Vec<char>>, Option<ExportBlock>, usize))
    requires
        i < ls@.len(),
        str_views(refs@) == views(ls@),
    ensures
        ({
            let (keep, blk, next) = export_step(views(ls@), i as int, idx as nat);
            &&& views(r.0@) == keep
            &&& next == r.2 as int
            &&& match r.1 {
                Some(b) => blk == Some(b@),
                None => blk is None,
            }
        }),
{
    let ghost v = views(ls@);
    let len = ls.len();
    let t = trim_chars(&ls[i]);
    if eq_str(&lowercase(&t), "{/* #+begin_example */}") {
        proof {
            lemma_closes(v, i + 1);
        }
        let mut q = i + 1;
        while q < len && !eq_str(&lowercase(&trim_chars(&ls[q])), "{/* #+end_example */}")
            invariant
                i + 1 <= q <= len,
                len == ls@.len(),
                v == views(ls@),
                example_close(v, i + 1) == example_close(v, q as int),
            decreases len - q,
        {
            q += 1;
        }
        let content = example_content_of(&copy_lines(ls, i + 1, q));
        let mut keep: Vec<Vec<char>> = Vec::new();
        let p = placeholder_line(idx);
        proof {
            lemma_views_push(keep@, p);
        }
        keep.push(p);
        assert(views(keep@) =~= seq![placeholder(idx as nat)]);
        let b = ExportBlock {
            export_type: from_chars(&to_chars("EXAMPLE")),
            content: from_chars(&content),
            exports: None,
        };
        let next = if q < len {
            q + 1
        } else {
            q
        };
        return (keep, Some(b), next);
    }
    if starts_with_str(&t, "{/* #+begin_export") && ends_with_str(&t, "*/}") {
        proof {
            reveal_strlit("{/* #+begin_export");
            reveal_strlit("*/}");
            let n = t@.len();
            if n < 21 {
                assert(t@.subrange(0, 18)[(n - 3) as int] == t@[n - 3]);
                assert(t@.subrange(n - 3, n as int)[0] == t@[n - 3]);
            }
        }
        let inner = trim_chars(&slice(&t, 18, t.len() - 3));
        let parts = split_whitespace(&inner);
        proof {
            lemma_closes(v, i + 1);
        }
        let mut q = i + 1;
        while q < len && !(starts_with_str(&trim_chars(&ls[q]), "{/* #+end_export") && ends_with_str(
            &trim_chars(&ls[q]),
            "*/}",
        ))
            invariant
                i + 1 <= q <= len,
                len == ls@.len(),
                v == views(ls@),
                export_close(v, i + 1) == export_close(v, q as int),
            decreases len - q,
        {
            q += 1;
        }
        let content = join_str(&copy_lines(ls, i + 1, q), "\n");
        let mut keep: Vec<Vec<char>> = Vec::new();
        let p = placeholder_line(idx);
        proof {
            lemma_views_push(keep@, p);
        }
        keep.push(p);
        assert(views(keep@) =~= seq![placeholder(idx as nat)]);
        let exports = match scan_exports(&parts) {
            Some(e) => Some(from_chars(&e)),
            None => None,
        };
        let b = ExportBlock {
            export_type: from_chars(&first_word_of(&parts)),
            content: from_chars(&content),
            exports,
        };
        let next = if q < len {
            q + 1
        } else {
            q
        };
        return (keep, Some(b), next);
    }
    if jsx_line_chars(&t) {
        let s0 = find_jsx_block_start(refs.as_slice(), i);
        let e0 = find_jsx_block_end(refs.as_slice(), i);
        proof {
            lemma_block_start(v, i as int);
            lemma_block_end(v, i as int);
            lemma_skip_blank(v, s0 as int, e0 as int);
        }
        let mut s1 = s0;
        while s1 < e0 && blank(&ls[s1])
            invariant
                s0 <= s1 <= e0 < len,
                len == ls@.len(),
                v == views(ls@),
                skip_blank_fwd(v, s0 as int, e0 as int) == skip_blank_fwd(v, s1 as int, e0 as int),
            decreases e0 - s1,
        {
            s1 += 1;
        }
        proof {
            lemma_skip_blank(v, s1 as int, e0 as int);
        }
        let mut e1 = e0;
        while e1 > s1 && blank(&ls[e1])
            invariant
                s1 <= e1 <= e0 < len,
                len == ls@.len(),
                v == views(ls@),
                skip_blank_bwd(v, s1 as int, e0 as int) == skip_blank_bwd(v, s1 as int, e1 as int),
            decreases e1,
        {
            e1 -= 1;
        }
        proof {
            assert(!is_blank_line(v[i as int])) by {
                reveal_strlit("import ");
                reveal_strlit("export ");
                if trim(v[i as int]).len() == 0 {
                    assert(trim(trim(v[i as int])) =~= Seq::<char>::empty());
                }
            }
            lemma_fwd_stops(v, s0 as int, e0 as int, i as int);
            lemma_bwd_stops(v, s1 as int, e0 as int, i as int);
        }
        let content = join_str(&copy_lines(ls, s1, e1 + 1), "\n");
        if trim_chars(&content).len() > 0 {
            let mut keep: Vec<Vec<char>> = Vec::new();
            let p = placeholder_line(idx);
            proof {
                lemma_views_push(keep@, p);
            }
            keep.push(p);
            assert(views(keep@) =~= seq![placeholder(idx as nat)]);
            let b = ExportBlock { export_type: from_chars(&to_chars("jsx")), content: from_chars(&content), exports: None };
            return (keep, Some(b), e1 + 1);
        } else {
            return (copy_lines(ls, i, e1 + 1), None, e1 + 1);
        }
    }
    let mut keep: Vec<Vec<char>> = Vec::new();
    let l = slice(&ls[i], 0, ls[i].len());
    assert(l@ =~= ls@[i as int]@);
    proof {
        lemma_views_push(keep@, l);
    }
    keep.push(l);
    assert(views(keep@) =~= seq![v[i as int]]);
    (keep, None, i + 1)
}


/// Sets aside the example, export and JSX blocks of an MDX body: gives the body with a
/// placeholder line for each, and the blocks in order.
pub fn extract_export_blocks(body: &str) -> (r: (String, Vec<ExportBlock>))
    ensures
        (r.0@, exports_view(r.1@)) == spec_extract_export_blocks(body@),
{
    let ls = lines_of(&to_chars(body));
    let ghost v = views(ls@);
    let mut strs: Vec<String> = Vec::new();
    let mut k: usize = 0;
    while k < ls.len()
        invariant
            k <= ls@.len(),
            strs@.len() == k,
            forall|j: int| 0 <= j < k ==> #[trigger] strs@[j]@ == ls@[j]@,
        decreases ls.len() - k,
    {
        strs.push(from_chars(&ls[k]));
        k += 1;
    }
    let mut refs: Vec<&str> = Vec::new();
    let mut k: usize = 0;
    while k < strs.len()
        invariant
            k <= strs@.len(),
            strs@.len() == ls@.len(),
            forall|j: int| 0 <= j < strs@.len() ==> #[trigger] strs@[j]@ == ls@[j]@,
            refs@.len() == k,
            forall|j: int| 0 <= j < k ==> #[trigger] refs@[j]@ == ls@[j]@,
        decreases strs.len() - k,
    {
        refs.push(strs[k].as_str());
        k += 1;
    }
    assert(str_views(refs@) =~= views(ls@));
    let mut res: Vec<Vec<char>> = Vec::new();
    let mut ex: Vec<ExportBlock> = Vec::new();
    let mut i: usize = 0;
    let mut done = false;
    assert(views(res@) =~= Seq::<Seq<char>>::empty());
    assert(exports_view(ex@) =~= Seq::<SExport>::empty());
    while i < ls.len() && !done
        invariant
            i <= ls@.len(),
            v == views(ls@),
            str_views(refs@) == v,
            export_scan(v, 0, Seq::empty(), Seq::empty()) == (if done {
                (views(res@), exports_view(ex@))
            } else {
                export_scan(v, i as int, views(res@), exports_view(ex@))
            }),
        decreases ls.len() - i, if done { 0int } else { 1int },
    {
        let idx = ex.len();
        let (keep, blk, next) = export_step_at(&ls, &refs, i, idx);
        if next <= i || next > ls.len() {
            done = true;
        } else {
            let ghost before = views(res@);
            let mut j: usize = 0;
            while j < keep.len()
                invariant
                    j <= keep@.len(),
                    views(res@) == before + views(keep@).take(j as int),
                decreases keep.len() - j,
            {
                let l = slice(&keep[j], 0, keep[j].len());
                assert(l@ =~= keep@[j as int]@);
                proof {
                    lemma_views_push(res@, l);
                }
                res.push(l);
                j += 1;
                assert(views(res@) =~= before + views(keep@).take(j as int));
            }
            assert(views(keep@).take(keep@.len() as int) =~= views(keep@));
            match blk {
                Some(b) => {
                    let ghost ev = exports_view(ex@);
                    ex.push(b);
                    assert(exports_view(ex@) =~= ev.push(b@));
                },
                None => {},
            }
            i = next;
        }
    }
    (from_chars(&join_str(&res, "\n")), ex)
}


// ------------------------------------------------------------------
// Putting the blocks back
// ------------------------------------------------------------------

/// The node a block set aside becomes: an example as a code block, an export with
/// `:exports none` as a comment, any other as an export node.
pub open spec fn export_node(e: SExport) -> SNode {
    if e.export_type == "EXAMPLE"@ {
        SNode::empty("code"@).with_value(e.content).with_data("block_type"@, SValue::Str("example"@))
    } else if e.exports == Some("none"@) {
        SNode::empty("comment"@).with_value(":exports none"@)
    } else {
        SNode::empty("export"@).with_value(e.content).with_data("lang"@, SValue::Str(e.export_type))
    }
}

/// The first block number, from `k` on, whose placeholder is `t`.
pub open spec fn placeholder_index(t: Seq<char>, ex: Seq<SExport>, k: int) -> Option<int>
    decreases ex.len() - k,
{
    if k < 0 || k >= ex.len() {
        None
    } else if t == placeholder(k as nat) {
        Some(k)
    } else {
        placeholder_index(t, ex, k + 1)
    }
}

pub proof fn lemma_placeholder_index(t: Seq<char>, ex: Seq<SExport>, k: int)
    requires
        0 <= k,
    ensures
        placeholder_index(t, ex, k) matches Some(i) ==> k <= i < ex.len(),
    decreases ex.len() - k,
{
    if k < ex.len() && t != placeholder(k as nat) {
        lemma_placeholder_index(t, ex, k + 1);
    }
}

/// The block number of the first child, from `j` on, that is a text holding a placeholder.
pub open spec fn child_export(ch: Seq<SNode>, ex: Seq<SExport>, j: int) -> Option<int>
    decreases ch.len() - j,
{
    if j < 0 || j >= ch.len() {
        None
    } else {
        let c = ch[j];
        let found = if c.kind == "text"@ && c.value is Some {
            placeholder_index(trim(c.value->0), ex, 0)
        } else {
            None
        };
        if found is Some {
            found
        } else {
            child_export(ch, ex, j + 1)
        }
    }
}

/// A block with a placeholder paragraph replaced by the block set aside.
pub open spec fn merged(b: SNode, ex: Seq<SExport>) -> SNode {
    if b.kind == "paragraph"@ && b.children is Some {
        match child_export(b.children->0, ex, 0) {
            Some(i) => export_node(ex[i]),
            None => b,
        }
    } else {
        b
    }
}

pub open spec fn spec_merge_exports(blocks: Seq<SNode>, ex: Seq<SExport>) -> Seq<SNode> {
    blocks.map_values(|b: SNode| merged(b, ex))
}

fn export_node_of(e: &ExportBlock) -> (r: AstNode)
    ensures
        r@ == export_node(e@),
{
    if eq_str(&to_chars(e.export_type.as_str()), "EXAMPLE") {
        AstNode::new("code").with_value(e.content.as_str()).data_str("block_type", "example")
    } else if match &e.exports {
        Some(x) => eq_str(&to_chars(x.as_str()), "none"),
        None => false,
    } {
        AstNode::new("comment").with_value(":exports none")
    } else {
        AstNode::new("export").with_value(e.content.as_str()).data_str("lang", e.export_type.as_str())
    }
}

/// The block number whose placeholder is `t`, if any.
fn find_placeholder(t: &[char], ex: &Vec<ExportBlock>) -> (r: Option<usize>)
    ensures
        match r {
            Some(i) => placeholder_index(t@, exports_view(ex@), 0) == Some(i as int) && i < ex@.len(),
            None => placeholder_index(t@, exports_view(ex@), 0) is None,
        },
{
    let ghost ev = exports_view(ex@);
    let mut k: usize = 0;
    while k < ex.len()
        invariant
            k <= ex@.len(),
            ev == exports_view(ex@),
            placeholder_index(t@, ev, 0) == placeholder_index(t@, ev, k as int),
        decreases ex.len() - k,
    {
        if eq(t, &placeholder_line(k)) {
            return Some(k);
        }
        k += 1;
    }
    None
}

/// The block number of the first child holding a placeholder, if any.
fn find_child_export(ch: &Vec<AstNode>, ex: &Vec<ExportBlock>) -> (r: Option<usize>)
    ensures
        match r {
            Some(i) => child_export(nodes_view(ch@), exports_view(ex@), 0) == Some(i as int) && i < ex@.len(),
            None => child_export(nodes_view(ch@), exports_view(ex@), 0) is None,
        },
{
    let ghost cv = nodes_view(ch@);
    proof {
        lemma_nodes_view_index(ch@);
    }
    let mut j: usize = 0;
    while j < ch.len()
        invariant
            j <= ch@.len(),
            cv == nodes_view(ch@),
            cv.len() == ch@.len(),
            forall|k: int| 0 <= k < ch@.len() ==> #[trigger] cv[k] == ch@[k]@,
            child_export(cv, exports_view(ex@), 0) == child_export(cv, exports_view(ex@), j as int),
        decreases ch.len() - j,
    {
        let c = &ch[j];
        if eq_str(&to_chars(c.node_type.as_str()), "text") {
            match &c.value {
                Some(v) => {
                    let t = trim_chars(&to_chars(v.as_str()));
                    match find_placeholder(&t, ex) {
                        Some(i) => {
                            return Some(i);
                        },
                        None => {},
                    }
                },
                None => {},
            }
        }
        j += 1;
    }
    None
}

/// Puts the blocks set aside back where their placeholder paragraphs stand.
pub fn merge_exports(blocks: Vec<AstNode>, exports: &Vec<ExportBlock>) -> (r: Vec<AstNode>)
    ensures
        nodes_view(r@) == spec_merge_exports(nodes_view(blocks@), exports_view(exports@)),
{
    let ghost bv = nodes_view(blocks@);
    let ghost ev = exports_view(exports@);
    proof {
        lemma_nodes_view_index(blocks@);
    }
    let mut rest = blocks;
    let mut out: Vec<AstNode> = Vec::new();
    let ghost n = bv.len();
    assert(nodes_view(out@) =~= spec_merge_exports(bv.take(0), ev));
    assert(bv.subrange(0, n as int) =~= bv);
    while rest.len() > 0
        invariant
            ev == exports_view(exports@),
            n == bv.len(),
            out@.len() + rest@.len() == n,
            nodes_view(out@) == spec_merge_exports(bv.take(out@.len() as int), ev),
            nodes_view(rest@) == bv.subrange(out@.len() as int, n as int),
        decreases rest@.len(),
    {
        let ghost k = out@.len() as int;
        let ghost old_rest = rest@;
        proof {
            lemma_nodes_view_index(old_rest);
            assert(nodes_view(old_rest)[0] == bv[k]);
        }
        let b = rest.remove(0);
        proof {
            lemma_nodes_view_index(rest@);
            assert(rest@ =~= old_rest.subrange(1, old_rest.len() as int));
            assert forall|j: int| 0 <= j < rest@.len() implies #[trigger] nodes_view(rest@)[j] == bv[k + 1 + j] by {
                assert(nodes_view(rest@)[j] == rest@[j]@);
                assert(rest@[j] == old_rest[j + 1]);
                assert(nodes_view(old_rest)[j + 1] == bv.subrange(k, n as int)[j + 1]);
            }
            assert(nodes_view(rest@) =~= bv.subrange(k + 1, n as int));
            assert(b@ == bv[k]);
        }
        let mut done = false;
        if eq_str(&to_chars(b.node_type.as_str()), "paragraph") {
            match &b.children {
                Some(ch) => {
                    match find_child_export(ch, exports) {
                        Some(i) => {
                            let e = export_node_of(&exports[i]);
                            let ghost before = nodes_view(out@);
                            proof {
                                lemma_nodes_view_push(out@, e);
                            }
                            out.push(e);
                            assert(nodes_view(out@) =~= spec_merge_exports(bv.take(k + 1), ev));
                            done = true;
                        },
                        None => {},
                    }
                },
                None => {},
            }
        }
        if !done {
            let ghost before = nodes_view(out@);
            let ghost bv_ = b@;
            proof {
                lemma_nodes_view_push(out@, b);
            }
            out.push(b);
            assert(nodes_view(out@) =~= spec_merge_exports(bv.take(k + 1), ev));
        }
    }
    assert(bv.take(n as int) =~= bv);
    out
}


// ------------------------------------------------------------------
// The Markdown tree
// ------------------------------------------------------------------

/// A node of the Markdown syntax tree, as far as the conversion reads it.
pub enum MdNode {
    Root(Vec<MdNode>),
    Heading(u8, Vec<MdNode>),
    Paragraph(Vec<MdNode>),
    List(bool, Vec<MdNode>),
    ListItem(Vec<MdNode>),
    Code(String, Option<String>),
    Blockquote(Vec<MdNode>),
    ThematicBreak,
    Html(String),
    FlowExpression(String),
    Text(String),
    Strong(Vec<MdNode>),
    Emphasis(Vec<MdNode>),
    Delete(Vec<MdNode>),
    InlineCode(String),
    Link(String, Vec<MdNode>),
    Image(String, String),
    Break,
    TextExpression(String),
    Other,
}

/// The mathematical form of a Markdown node.
pub enum SMd {
    Root(Seq<SMd>),
    Heading(u8, Seq<SMd>),
    Paragraph(Seq<SMd>),
    List(bool, Seq<SMd>),
    ListItem(Seq<SMd>),
    Code(Seq<char>, Option<Seq<char>>),
    Blockquote(Seq<SMd>),
    ThematicBreak,
    Html(Seq<char>),
    FlowExpression(Seq<char>),
    Text(Seq<char>),
    Strong(Seq<SMd>),
    Emphasis(Seq<SMd>),
    Delete(Seq<SMd>),
    InlineCode(Seq<char>),
    Link(Seq<char>, Seq<SMd>),
    Image(Seq<char>, Seq<char>),
    Break,
    TextExpression(Seq<char>),
    Other,
}

pub open spec fn md_view(n: MdNode) -> SMd
    decreases n, 1nat,
{
    match n {
        MdNode::Root(c) => SMd::Root(mds_view(c@)),
        MdNode::Heading(d, c) => SMd::Heading(d, mds_view(c@)),
        MdNode::Paragraph(c) => SMd::Paragraph(mds_view(c@)),
        MdNode::List(o, c) => SMd::List(o, mds_view(c@)),
        MdNode::ListItem(c) => SMd::ListItem(mds_view(c@)),
        MdNode::Code(v, l) => SMd::Code(v@, match l {
            Some(x) => Some(x@),
            None => None,
        }),
        MdNode::Blockquote(c) => SMd::Blockquote(mds_view(c@)),
        MdNode::ThematicBreak => SMd::ThematicBreak,
        MdNode::Html(v) => SMd::Html(v@),
        MdNode::FlowExpression(v) => SMd::FlowExpression(v@),
        MdNode::Text(v) => SMd::Text(v@),
        MdNode::Strong(c) => SMd::Strong(mds_view(c@)),
        MdNode::Emphasis(c) => SMd::Emphasis(mds_view(c@)),
        MdNode::Delete(c) => SMd::Delete(mds_view(c@)),
        MdNode::InlineCode(v) => SMd::InlineCode(v@),
        MdNode::Link(u, c) => SMd::Link(u@, mds_view(c@)),
        MdNode::Image(u, a) => SMd::Image(u@, a@),
        MdNode::Break => SMd::Break,
        MdNode::TextExpression(v) => SMd::TextExpression(v@),
        MdNode::Other => SMd::Other,
    }
}

pub open spec fn mds_view(s: Seq<MdNode>) -> Seq<SMd>
    decreases s, 0nat,
{
    if s.len() == 0 {
        Seq::empty()
    } else {
        mds_view(s.drop_last()).push(md_view(s[s.len() - 1]))
    }
}

impl View for MdNode {
    type V = SMd;

    open spec fn view(&self) -> SMd {
        md_view(*self)
    }
}

pub proof fn lemma_mds_view_index(s: Seq<MdNode>)
    ensures
        mds_view(s).len() == s.len(),
        forall|i: int| 0 <= i < s.len() ==> #[trigger] mds_view(s)[i] == s[i]@,
    decreases s.len(),
{
    if s.len() > 0 {
        lemma_mds_view_index(s.drop_last());
    }
}

/// Both sequences, or nothing where either is missing.
pub open spec fn cat_nodes(a: Option<Seq<SNode>>, b: Option<Seq<SNode>>) -> Option<Seq<SNode>> {
    match a {
        Some(x) => match b {
            Some(y) => Some(x + y),
            None => None,
        },
        None => None,
    }
}

/// A node holding `inner` in braces, as the value of an `html` node.
pub open spec fn expression_node(v: Seq<char>) -> SNode {
    SNode::empty("html"@).with_value("{"@ + v + "}"@)
}

/// An HTML fragment from the Markdown tree as an `html` node holding its JSX form.
pub open spec fn html_node(v: Seq<char>) -> Option<SNode> {
    match spec_html_to_jsx(v) {
        Some(j) => Some(SNode::empty("html"@).with_value(j)),
        None => None,
    }
}

/// The inline nodes an inline Markdown node becomes; `None` where an HTML fragment's
/// conversion never ends.
pub open spec fn md_inline(n: SMd) -> Option<Seq<SNode>>
    decreases n, 1int,
{
    match n {
        SMd::Text(v) => Some(seq![SNode::empty("text"@).with_value(v)]),
        SMd::Strong(c) => match md_inline_seq(c) {
            Some(k) => Some(seq![SNode::empty("strong"@).with_children(k)]),
            None => None,
        },
        SMd::Emphasis(c) => match md_inline_seq(c) {
            Some(k) => Some(seq![SNode::empty("emphasis"@).with_children(k)]),
            None => None,
        },
        SMd::Delete(c) => match md_inline_seq(c) {
            Some(k) => Some(seq![SNode::empty("delete"@).with_children(k)]),
            None => None,
        },
        SMd::InlineCode(v) => Some(seq![SNode::empty("inlineCode"@).with_value(v)]),
        SMd::Link(u, c) => match md_inline_seq(c) {
            Some(k) => Some(seq![SNode::empty("link"@).with_children(k).with_data("url"@, SValue::Str(u))]),
            None => None,
        },
        SMd::Image(u, a) => Some(seq![SNode::empty("image"@).with_data("url"@, SValue::Str(u)).with_data("alt"@, SValue::Str(a))]),
        SMd::Break => Some(seq![SNode::empty("break"@)]),
        SMd::Html(v) => match html_node(v) {
            Some(h) => Some(seq![h]),
            None => None,
        },
        SMd::TextExpression(v) => Some(seq![expression_node(v)]),
        _ => Some(Seq::empty()),
    }
}

pub open spec fn md_inline_seq(ns: Seq<SMd>) -> Option<Seq<SNode>>
    decreases ns, 0int,
{
    if ns.len() == 0 {
        Some(Seq::empty())
    } else {
        cat_nodes(md_inline_seq(ns.drop_last()), md_inline(ns[ns.len() - 1]))
    }
}

/// A paragraph's inline nodes: a lone text in braces is an `html` node (an expression),
/// anything else a paragraph.
pub open spec fn paragraph_of(c: Seq<SNode>) -> SNode {
    if c.len() == 1 && c[0].kind == "text"@ && c[0].value is Some && has_prefix(trim(c[0].value->0), "{"@)
        && has_suffix(trim(c[0].value->0), "}"@) {
        SNode::empty("html"@).with_value(trim(c[0].value->0))
    } else {
        SNode::empty("paragraph"@).with_children(c)
    }
}

/// The block nodes a Markdown node becomes; `None` where an HTML fragment's conversion
/// never ends.
pub open spec fn md_blocks(n: SMd) -> Option<Seq<SNode>>
    decreases n, 2int,
{
    match n {
        SMd::Root(c) => md_block_seq(c),
        SMd::Heading(d, c) => match md_inline_seq(c) {
            Some(k) => Some(seq![SNode::empty("heading"@).with_children(k).with_data("depth"@, SValue::UInt(d as u64))]),
            None => None,
        },
        SMd::Paragraph(c) => match md_inline_seq(c) {
            Some(k) => Some(seq![paragraph_of(k)]),
            None => None,
        },
        SMd::List(o, items) => match md_items(items) {
            Some(its) => Some(seq![SNode::empty("list"@).with_children(its).with_data("ordered"@, SValue::Bool(o))]),
            None => None,
        },
        SMd::Code(v, lang) => Some(seq![match lang {
            Some(l) => SNode::empty("code"@).with_value(v).with_data("lang"@, SValue::Str(l)),
            None => SNode::empty("code"@).with_value(v),
        }]),
        SMd::Blockquote(c) => match md_block_seq(c) {
            Some(k) => Some(seq![SNode::empty("blockquote"@).with_children(k)]),
            None => None,
        },
        SMd::ThematicBreak => Some(seq![SNode::empty("thematicBreak"@)]),
        SMd::Html(v) => match html_node(v) {
            Some(h) => Some(seq![h]),
            None => None,
        },
        SMd::FlowExpression(v) => Some(seq![expression_node(v)]),
        _ => Some(Seq::empty()),
    }
}

/// A Markdown list becomes one list node that keeps the list's kind: its `ordered`
/// datum is the list's own ordered flag, and its children are the items. A heading
/// keeps its depth, and a code block its text and language.
pub proof fn law_md_blocks_keep_kind(o: bool, items: Seq<SMd>, d: u8, c: Seq<SMd>, v: Seq<char>, lang: Option<Seq<char>>)
    ensures
        md_blocks(SMd::List(o, items)) is Some <==> md_items(items) is Some,
        md_blocks(SMd::List(o, items)) matches Some(ns) ==> {
            &&& ns.len() == 1
            &&& ns[0].kind == "list"@
            &&& ns[0].children == Some(md_items(items)->0)
            &&& lookup(ns[0].data, "ordered"@) == Some(SValue::Bool(o))
        },
        md_blocks(SMd::Heading(d, c)) matches Some(ns) ==> {
            &&& ns.len() == 1
            &&& ns[0].kind == "heading"@
            &&& lookup(ns[0].data, "depth"@) == Some(SValue::UInt(d as u64))
        },
        md_blocks(SMd::Code(v, lang)) matches Some(ns) ==> {
            &&& ns.len() == 1
            &&& ns[0].kind == "code"@
            &&& ns[0].value == Some(v)
            &&& lookup(ns[0].data, "lang"@) == match lang {
                Some(l) => Some(SValue::Str(l)),
                None => None::<SValue>,
            }
        },
{
    if let Some(its) = md_items(items) {
        law_data_read_after_write(SNode::empty("list"@).with_children(its), "ordered"@, SValue::Bool(o), "ordered"@);
    }
    if let Some(k) = md_inline_seq(c) {
        law_data_read_after_write(SNode::empty("heading"@).with_children(k), "depth"@, SValue::UInt(d as u64), "depth"@);
    }
    match lang {
        Some(l) => {
            law_data_read_after_write(SNode::empty("code"@).with_value(v), "lang"@, SValue::Str(l), "lang"@);
        },
        None => {},
    }
}

pub open spec fn md_block_seq(ns: Seq<SMd>) -> Option<Seq<SNode>>
    decreases ns, 0int,
{
    if ns.len() == 0 {
        Some(Seq::empty())
    } else {
        cat_nodes(md_block_seq(ns.drop_last()), md_blocks(ns[ns.len() - 1]))
    }
}

/// The items of a list: a list item holds the blocks of its children; anything else
/// becomes an empty item.
pub open spec fn md_items(items: Seq<SMd>) -> Option<Seq<SNode>>
    decreases items, 1int,
{
    if items.len() == 0 {
        Some(Seq::empty())
    } else {
        let it = items[items.len() - 1];
        let node = match it {
            SMd::ListItem(c) => match md_block_seq(c) {
                Some(k) => Some(SNode::empty("listItem"@).with_children(k)),
                None => None,
            },
            _ => Some(SNode::empty("listItem"@)),
        };
        match node {
            Some(x) => cat_nodes(md_items(items.drop_last()), Some(seq![x])),
            None => None,
        }
    }
}


/// Appends `more` to `out`.
fn append_nodes(out: &mut Vec<AstNode>, more: Vec<AstNode>)
    ensures
        nodes_view(final(out)@) == nodes_view(old(out)@) + nodes_view(more@),
{
    let mut m = more;
    proof {
        lemma_nodes_view_append(out@, m@);
    }
    out.append(&mut m);
}

fn one(n: AstNode) -> (r: Vec<AstNode>)
    ensures
        nodes_view(r@) == seq![n@],
{
    let mut v: Vec<AstNode> = Vec::new();
    proof {
        lemma_nodes_view_push(v@, n);
        assert(nodes_view(Seq::<AstNode>::empty()) =~= Seq::<SNode>::empty());
    }
    v.push(n);
    assert(v@ =~= Seq::<AstNode>::empty().push(n));
    v
}

fn expression(v: &str) -> (r: AstNode)
    ensures
        r@ == expression_node(v@),
{
    let mut t = to_chars("{");
    crate::text::push_str(&mut t, v);
    crate::text::push_str(&mut t, "}");
    AstNode::new("html").with_value(from_chars(&t).as_str())
}

fn html_of(v: &str) -> (r: Option<AstNode>)
    ensures
        match r {
            Some(h) => html_node(v@) == Some(h@),
            None => html_node(v@) is None,
        },
{
    match try_html_to_jsx(v) {
        Some(j) => Some(AstNode::new("html").with_value(j.as_str())),
        None => None,
    }
}

fn convert_inline(n: &MdNode) -> (r: Option<Vec<AstNode>>)
    ensures
        match r {
            Some(v) => md_inline(n@) == Some(nodes_view(v@)),
            None => md_inline(n@) is None,
        },
    decreases n, 1int,
{
    match n {
        MdNode::Text(v) => Some(one(AstNode::text(v.as_str()))),
        MdNode::Strong(c) => match convert_inlines(c) {
            Some(k) => Some(one(AstNode::new("strong").with_children(k))),
            None => None,
        },
        MdNode::Emphasis(c) => match convert_inlines(c) {
            Some(k) => Some(one(AstNode::new("emphasis").with_children(k))),
            None => None,
        },
        MdNode::Delete(c) => match convert_inlines(c) {
            Some(k) => Some(one(AstNode::new("delete").with_children(k))),
            None => None,
        },
        MdNode::InlineCode(v) => Some(one(AstNode::new("inlineCode").with_value(v.as_str()))),
        MdNode::Link(u, c) => match convert_inlines(c) {
            Some(k) => Some(one(AstNode::new("link").with_children(k).data_str("url", u.as_str()))),
            None => None,
        },
        MdNode::Image(u, a) => Some(one(AstNode::new("image").data_str("url", u.as_str()).data_str("alt", a.as_str()))),
        MdNode::Break => Some(one(AstNode::new("break"))),
        MdNode::Html(v) => match html_of(v.as_str()) {
            Some(h) => Some(one(h)),
            None => None,
        },
        MdNode::TextExpression(v) => Some(one(expression(v.as_str()))),
        _ => Some(Vec::new()),
    }
}

/// The inline nodes of a run of inline Markdown nodes; `None` where an HTML fragment's
/// conversion never ends.
pub fn convert_inlines(ns: &Vec<MdNode>) -> (r: Option<Vec<AstNode>>)
    ensures
        match r {
            Some(v) => md_inline_seq(mds_view(ns@)) == Some(nodes_view(v@)),
            None => md_inline_seq(mds_view(ns@)) is None,
        },
    decreases ns, 0int,
{
    let ghost sv = mds_view(ns@);
    proof {
        lemma_mds_view_index(ns@);
    }
    let mut out: Vec<AstNode> = Vec::new();
    let mut i: usize = 0;
    assert(nodes_view(out@) =~= Seq::<SNode>::empty());
    while i < ns.len()
        invariant
            i <= ns@.len(),
            sv == mds_view(ns@),
            sv.len() == ns@.len(),
            forall|j: int| 0 <= j < ns@.len() ==> #[trigger] sv[j] == ns@[j]@,
            md_inline_seq(sv.take(i as int)) == Some(nodes_view(out@)),
        decreases ns.len() - i,
    {
        assert(sv.take(i + 1).drop_last() =~= sv.take(i as int));
        assert(decreases_to!(*ns => ns@));
        assert(decreases_to!(ns@ => ns@[i as int]));
        match convert_inline(&ns[i]) {
            Some(k) => append_nodes(&mut out, k),
            None => {
                proof {
                    lemma_inline_seq_none(sv, i as int);
                }
                return None;
            },
        }
        i += 1;
    }
    assert(sv.take(ns@.len() as int) =~= sv);
    Some(out)
}

proof fn lemma_inline_seq_none(v: Seq<SMd>, i: int)
    requires
        0 <= i < v.len(),
        md_inline(v[i]) is None,
    ensures
        md_inline_seq(v) is None,
    decreases v.len(),
{
    if i < v.len() - 1 {
        lemma_inline_seq_none(v.drop_last(), i);
    }
}

proof fn lemma_block_seq_none(v: Seq<SMd>, i: int)
    requires
        0 <= i < v.len(),
        md_blocks(v[i]) is None,
    ensures
        md_block_seq(v) is None,
    decreases v.len(),
{
    if i < v.len() - 1 {
        lemma_block_seq_none(v.drop_last(), i);
    }
}

proof fn lemma_items_none(v: Seq<SMd>, i: int)
    requires
        0 <= i < v.len(),
        (match v[i] {
            SMd::ListItem(c) => md_block_seq(c),
            _ => Some(Seq::empty()),
        }) is None,
    ensures
        md_items(v) is None,
    decreases v.len(),
{
    if i < v.len() - 1 {
        lemma_items_none(v.drop_last(), i);
    }
}

fn paragraph_node(k: Vec<AstNode>) -> (r: AstNode)
    ensures
        r@ == paragraph_of(nodes_view(k@)),
{
    proof {
        lemma_nodes_view_index(k@);
    }
    if k.len() == 1 && eq_str(&to_chars(k[0].node_type.as_str()), "text") {
        match &k[0].value {
            Some(v) => {
                let t = trim_chars(&to_chars(v.as_str()));
                if starts_with_str(&t, "{") && ends_with_str(&t, "}") {
                    return AstNode::new("html").with_value(from_chars(&t).as_str());
                }
            },
            None => {},
        }
    }
    AstNode::new("paragraph").with_children(k)
}

/// The block nodes of a Markdown node; `None` where an HTML fragment's conversion never
/// ends.
pub fn convert_node(n: &MdNode) -> (r: Option<Vec<AstNode>>)
    ensures
        match r {
            Some(v) => md_blocks(n@) == Some(nodes_view(v@)),
            None => md_blocks(n@) is None,
        },
    decreases n, 2int,
{
    match n {
        MdNode::Root(c) => convert_nodes(c),
        MdNode::Heading(d, c) => match convert_inlines(c) {
            Some(k) => Some(one(AstNode::new("heading").with_children(k).data_num("depth", *d as u64))),
            None => None,
        },
        MdNode::Paragraph(c) => match convert_inlines(c) {
            Some(k) => Some(one(paragraph_node(k))),
            None => None,
        },
        MdNode::List(o, items) => match convert_items(items) {
            Some(its) => Some(one(AstNode::new("list").with_children(its).data_bool("ordered", *o))),
            None => None,
        },
        MdNode::Code(v, lang) => {
            let node = AstNode::new("code").with_value(v.as_str());
            Some(one(match lang {
                Some(l) => node.data_str("lang", l.as_str()),
                None => node,
            }))
        },
        MdNode::Blockquote(c) => match convert_nodes(c) {
            Some(k) => Some(one(AstNode::new("blockquote").with_children(k))),
            None => None,
        },
        MdNode::ThematicBreak => Some(one(AstNode::new("thematicBreak"))),
        MdNode::Html(v) => match html_of(v.as_str()) {
            Some(h) => Some(one(h)),
            None => None,
        },
        MdNode::FlowExpression(v) => Some(one(expression(v.as_str()))),
        _ => Some(Vec::new()),
    }
}

fn convert_nodes(ns: &Vec<MdNode>) -> (r: Option<Vec<AstNode>>)
    ensures
        match r {
            Some(v) => md_block_seq(mds_view(ns@)) == Some(nodes_view(v@)),
            None => md_block_seq(mds_view(ns@)) is None,
        },
    decreases ns, 0int,
{
    let ghost sv = mds_view(ns@);
    proof {
        lemma_mds_view_index(ns@);
    }
    let mut out: Vec<AstNode> = Vec::new();
    let mut i: usize = 0;
    assert(nodes_view(out@) =~= Seq::<SNode>::empty());
    while i < ns.len()
        invariant
            i <= ns@.len(),
            sv == mds_view(ns@),
            sv.len() == ns@.len(),
            forall|j: int| 0 <= j < ns@.len() ==> #[trigger] sv[j] == ns@[j]@,
            md_block_seq(sv.take(i as int)) == Some(nodes_view(out@)),
        decreases ns.len() - i,
    {
        assert(sv.take(i + 1).drop_last() =~= sv.take(i as int));
        assert(decreases_to!(*ns => ns@));
        assert(decreases_to!(ns@ => ns@[i as int]));
        match convert_node(&ns[i]) {
            Some(k) => append_nodes(&mut out, k),
            None => {
                proof {
                    lemma_block_seq_none(sv, i as int);
                }
                return None;
            },
        }
        i += 1;
    }
    assert(sv.take(ns@.len() as int) =~= sv);
    Some(out)
}

fn convert_items(items: &Vec<MdNode>) -> (r: Option<Vec<AstNode>>)
    ensures
        match r {
            Some(v) => md_items(mds_view(items@)) == Some(nodes_view(v@)),
            None => md_items(mds_view(items@)) is None,
        },
    decreases items, 1int,
{
    let ghost sv = mds_view(items@);
    proof {
        lemma_mds_view_index(items@);
    }
    let mut out: Vec<AstNode> = Vec::new();
    let mut i: usize = 0;
    assert(nodes_view(out@) =~= Seq::<SNode>::empty());
    while i < items.len()
        invariant
            i <= items@.len(),
            sv == mds_view(items@),
            sv.len() == items@.len(),
            forall|j: int| 0 <= j < items@.len() ==> #[trigger] sv[j] == items@[j]@,
            md_items(sv.take(i as int)) == Some(nodes_view(out@)),
        decreases items.len() - i,
    {
        assert(sv.take(i + 1).drop_last() =~= sv.take(i as int));
        let node = match &items[i] {
            MdNode::ListItem(c) => {
                assert(decreases_to!(*items => items@));
                assert(decreases_to!(items@ => items@[i as int]));
                match convert_nodes(c) {
                    Some(k) => AstNode::new("listItem").with_children(k),
                    None => {
                        proof {
                            lemma_items_none(sv, i as int);
                        }
                        return None;
                    },
                }
            },
            _ => AstNode::new("listItem"),
        };
        append_nodes(&mut out, one(node));
        i += 1;
    }
    assert(sv.take(items@.len() as int) =~= sv);
    Some(out)
}


// ------------------------------------------------------------------
// Front matter and the whole document
// ------------------------------------------------------------------

/// An MDX input with leading whitespace removed, and, when it opens with a `---` line
/// that a later `---` line closes, the YAML text between them and the text after.
pub struct FrontMatterSplit {
    pub trimmed: String,
    pub yaml: Option<(String, String)>,
}

/// The parts `split_frontmatter` gives, as character sequences.
pub open spec fn spec_split_frontmatter(input: Seq<char>) -> (Seq<char>, Option<(Seq<char>, Seq<char>)>) {
    let t = crate::text::trim_start(input);
    if !has_prefix(t, "---\n"@) {
        (t, None)
    } else {
        let after = t.subrange(4, t.len() as int);
        match crate::text::find(after, "\n---"@) {
            Some(e) => (t, Some((after.subrange(0, e), after.subrange(e + 4, after.len() as int)))),
            None => (t, None),
        }
    }
}

/// Splits the YAML front matter off an MDX input.
pub fn split_frontmatter(input: &str) -> (r: FrontMatterSplit)
    ensures
        (r.trimmed@, match r.yaml {
            Some((y, rest)) => Some((y@, rest@)),
            None => None,
        }) == spec_split_frontmatter(input@),
{
    let t = crate::text::trim_start_chars(&to_chars(input));
    let ts = from_chars(&t);
    proof {
        reveal_strlit("---\n");
        reveal_strlit("\n---");
    }
    if !starts_with_str(&t, "---\n") {
        return FrontMatterSplit { trimmed: ts, yaml: None };
    }
    let after = slice(&t, 4, t.len());
    match crate::text::find_str(&after, "\n---") {
        Some(e) => {
            let y = from_chars(&slice(&after, 0, e));
            let rest = from_chars(&slice(&after, e + 4, after.len()));
            FrontMatterSplit { trimmed: ts, yaml: Some((y, rest)) }
        },
        None => FrontMatterSplit { trimmed: ts, yaml: None },
    }
}

/// The syntax tree of an MDX document from its front matter, the Markdown tree of its
/// body (with placeholders) and the blocks set aside; `None` where an HTML fragment's
/// conversion never ends.
pub open spec fn spec_mdx_root(fm: Seq<(Seq<char>, SValue)>, tree: SMd, ex: Seq<SExport>) -> Option<SNode> {
    match md_blocks(tree) {
        Some(bs) => Some(SNode {
            data: insert_all(Seq::empty(), fm),
            ..SNode::empty("root"@).with_children(spec_merge_exports(bs, ex))
        }),
        None => None,
    }
}

/// Builds the syntax tree of an MDX document from its parts.
pub fn build_mdx_root(frontmatter: Vec<DataEntry>, tree: &MdNode, exports: &Vec<ExportBlock>) -> (r: Option<AstNode>)
    ensures
        match r {
            Some(n) => spec_mdx_root(entries_view(frontmatter@), tree@, exports_view(exports@)) == Some(n@),
            None => spec_mdx_root(entries_view(frontmatter@), tree@, exports_view(exports@)) is None,
        },
{
    match convert_node(tree) {
        Some(blocks) => {
            let merged = merge_exports(blocks, exports);
            Some(AstNode::root(merged).with_data_map(frontmatter))
        },
        None => None,
    }
}

// ------------------------------------------------------------------
// Reading an MDX document
// ------------------------------------------------------------------

/// The syntax tree of an MDX document: the front matter as the root's data, and the
/// Markdown tree of the body (with export and JSX blocks set aside and put back) as its
/// children. An error carries the message of the Markdown reader; `None` where an HTML
/// fragment's conversion never ends.
pub open spec fn spec_parse_mdx(input: Seq<char>) -> Option<Result<SNode, Seq<char>>> {
    let (fm, body) = spec_extract_frontmatter(input);
    let (pb, ex) = spec_extract_export_blocks(body);
    match mdast_of(pb) {
        Err(m) => Some(Err(m)),
        Ok(t) => match spec_mdx_root(fm, t, ex) {
            Some(n) => Some(Ok(n)),
            None => None,
        },
    }
}

/// The inputs `parse_mdx` takes: dates of the front matter that `iso_to_org_date` takes,
/// and HTML whose conversion ends.
pub open spec fn mdx_readable(input: Seq<char>) -> bool {
    frontmatter_dates_ok(input) && spec_parse_mdx(input) is Some
}

/// Parses an MDX document into the syntax tree.
pub fn parse_mdx(input: &str) -> (r: Result<AstNode, Error>)
    requires
        mdx_readable(input@),
    ensures
        match r {
            Ok(n) => spec_parse_mdx(input@) == Some(Ok::<SNode, Seq<char>>(n@)),
            Err(e) => e matches Error::InvalidInput(m) && spec_parse_mdx(input@) == Some(
                Err::<SNode, Seq<char>>(m@),
            ),
        },
{
    let (fm, body) = extract_frontmatter(input);
    let (pb, ex) = extract_export_blocks(body.as_str());
    match markdown_tree(pb.as_str()) {
        Err(m) => Err(Error::InvalidInput(m)),
        Ok(t) => match build_mdx_root(fm, &t, &ex) {
            Some(n) => Ok(n),
            None => {
                proof {
                    assert(false);
                }
                Err(Error::InvalidInput(empty_message()))
            },
        },
    }
}

/// An empty message.
fn empty_message() -> (r: String)
    ensures
        r@ == Seq::<char>::empty(),
{
    from_chars(&Vec::new())
}

/// As `parse_mdx`; `None` exactly on the inputs `parse_mdx` does not take.
pub fn try_parse_mdx(input: &str) -> (r: Option<Result<AstNode, Error>>)
    ensures
        match r {
            None => !mdx_readable(input@),
            Some(x) => mdx_readable(input@) && match x {
                Ok(n) => spec_parse_mdx(input@) == Some(Ok::<SNode, Seq<char>>(n@)),
                Err(e) => e matches Error::InvalidInput(m) && spec_parse_mdx(input@) == Some(
                    Err::<SNode, Seq<char>>(m@),
                ),
            },
        },
{
    if try_extract_frontmatter(input).is_none() {
        return None;
    }
    let (fm, body) = extract_frontmatter(input);
    let (pb, ex) = extract_export_blocks(body.as_str());
    match markdown_tree(pb.as_str()) {
        Err(_) => Some(parse_mdx(input)),
        Ok(t) => match build_mdx_root(fm, &t, &ex) {
            Some(_) => Some(parse_mdx(input)),
            None => None,
        },
    }
}

} // verus!
