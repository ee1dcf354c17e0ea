//! JSX block detection helpers for MDX parsing.
//! These detect JSX component tags, import/export statements, and determine
//! block boundaries in source text.
use vstd::prelude::*;
use crate::text::{
    char_uppercase, has_prefix, is_blank, is_uppercase, is_ws, lemma_ws_run_end, lemma_ws_run_start,
    starts_with_str, to_chars, trim, trim_chars, ws_run_end, ws_run_start,
};

verus! {

/// The line starts with `<` followed by an uppercase letter.
pub open spec fn spec_is_jsx_anchor_line(l: Seq<char>) -> bool {
    l.len() > 1 && l[0] == '<' && char_uppercase(l[1])
}

/// After trimming, the line starts a JSX block: a component tag, `import ` or `export `.
pub open spec fn spec_is_jsx_line(l: Seq<char>) -> bool {
    let t = trim(l);
    spec_is_jsx_anchor_line(t) || has_prefix(t, "import "@) || has_prefix(t, "export "@)
}

/// After trimming, the line is an `import ` or `export ` statement.
pub open spec fn is_import_export(l: Seq<char>) -> bool {
    has_prefix(trim(l), "import "@) || has_prefix(trim(l), "export "@)
}

/// The line is empty after trimming.
pub open spec fn is_blank_line(l: Seq<char>) -> bool {
    trim(l).len() == 0
}

/// The views of a slice of string slices.
pub open spec fn str_views(ls: Seq<&str>) -> Seq<Seq<char>> {
    ls.map_values(|l: &str| l@)
}

/// Moving back from `c` over blank lines, the index where the scan stops (never below 0).
pub open spec fn skip_blank_back(ls: Seq<Seq<char>>, c: int) -> int
    decreases c,
{
    if c > 0 && is_blank_line(ls[c]) {
        skip_blank_back(ls, c - 1)
    } else {
        c
    }
}

/// The start of the JSX block whose scan has reached `start`.
pub open spec fn block_start_from(ls: Seq<Seq<char>>, start: int) -> int
    decreases start,
{
    if start <= 0 {
        start
    } else {
        let prev = ls[start - 1];
        if is_import_export(prev) {
            block_start_from(ls, start - 1)
        } else if is_blank_line(prev) {
            let cand = skip_blank_back(ls, start - 1);
            proof {
                lemma_skip_blank_back(ls, start - 1);
            }
            if cand < start && is_import_export(ls[cand]) {
                block_start_from(ls, cand)
            } else {
                start
            }
        } else {
            start
        }
    }
}

/// The end of the JSX block whose scan has reached `end`.
pub open spec fn block_end_from(ls: Seq<Seq<char>>, end: int) -> int
    decreases ls.len() - end,
{
    if 0 <= end && end + 1 < ls.len() {
        let next = trim(ls[end + 1]);
        if spec_is_jsx_line(next) {
            block_end_from(ls, end + 1)
        } else if next.len() == 0 && end + 2 < ls.len() && spec_is_jsx_line(trim(ls[end + 2])) {
            block_end_from(ls, end + 2)
        } else {
            end
        }
    } else {
        end
    }
}

pub proof fn lemma_skip_blank_back(ls: Seq<Seq<char>>, c: int)
    requires
        0 <= c,
    ensures
        0 <= skip_blank_back(ls, c) <= c,
    decreases c,
{
    if c > 0 && is_blank_line(ls[c]) {
        lemma_skip_blank_back(ls, c - 1);
    }
}

/// Returns true if the line starts with `<` followed by an uppercase letter — indicating a JSX
/// component tag at the start of a line (block-level JSX, not inline within a paragraph).
pub fn is_jsx_anchor_line(line: &str) -> (r: bool)
    ensures
        r == spec_is_jsx_anchor_line(line@),
{
    let l = to_chars(line);
    anchor_chars(&l)
}

fn anchor_chars(l: &[char]) -> (r: bool)
    ensures
        r == spec_is_jsx_anchor_line(l@),
{
    l.len() > 1 && l[0] == '<' && is_uppercase(l[1])
}

/// Returns true if the line begins a JSX block: starts with a JSX component tag,
/// `import `, or `export ` after trimming.
pub fn is_jsx_line(line: &str) -> (r: bool)
    ensures
        r == spec_is_jsx_line(line@),
{
    let l = to_chars(line);
    jsx_line_chars(&l)
}

pub fn jsx_line_chars(l: &[char]) -> (r: bool)
    ensures
        r == spec_is_jsx_line(l@),
{
    let t = trim_chars(l);
    anchor_chars(&t) || starts_with_str(&t, "import ") || starts_with_str(&t, "export ")
}

fn import_export_at(lines: &[&str], i: usize) -> (r: bool)
    requires
        i < lines@.len(),
    ensures
        r == is_import_export(str_views(lines@)[i as int]),
{
    let t = trim_chars(&to_chars(lines[i]));
    starts_with_str(&t, "import ") || starts_with_str(&t, "export ")
}

fn blank_at(lines: &[&str], i: usize) -> (r: bool)
    requires
        i < lines@.len(),
    ensures
        r == is_blank_line(str_views(lines@)[i as int]),
{
    is_blank(&to_chars(lines[i]))
}

/// Scan backward from `anchor` to find the start of a JSX block, including preceding
/// `import`/`export` lines with optional blank lines between them. Stops at the first
/// non-import/export line that isn't separated by only blank lines from the block.
pub fn find_jsx_block_start(lines: &[&str], anchor: usize) -> (r: usize)
    requires
        anchor <= lines@.len(),
    ensures
        r as int == block_start_from(str_views(lines@), anchor as int),
{
    let ghost ls = str_views(lines@);
    let mut start = anchor;
    while start > 0
        invariant
            start <= anchor <= lines@.len(),
            ls == str_views(lines@),
            block_start_from(ls, anchor as int) == block_start_from(ls, start as int),
        decreases start,
    {
        if import_export_at(lines, start - 1) {
            start -= 1;
        } else if blank_at(lines, start - 1) {
            let mut candidate = start - 1;
            while candidate > 0 && blank_at(lines, candidate)
                invariant
                    candidate < start <= lines@.len(),
                    ls == str_views(lines@),
                    skip_blank_back(ls, start - 1) == skip_blank_back(ls, candidate as int),
                decreases candidate,
            {
                candidate -= 1;
            }
            proof {
                lemma_skip_blank_back(ls, start - 1);
            }
            if import_export_at(lines, candidate) {
                start = candidate;
            } else {
                return start;
            }
        } else {
            return start;
        }
    }
    start
}

fn jsx_line_at(lines: &[&str], i: usize) -> (r: bool)
    requires
        i < lines@.len(),
    ensures
        r == spec_is_jsx_line(trim(str_views(lines@)[i as int])),
{
    let t = trim_chars(&to_chars(lines[i]));
    jsx_line_chars(&t)
}

/// Scan forward from `anchor` to find the end of a JSX block, including subsequent
/// JSX lines with optional blank lines between them.
pub fn find_jsx_block_end(lines: &[&str], anchor: usize) -> (r: usize)
    requires
        anchor < usize::MAX,
    ensures
        r as int == block_end_from(str_views(lines@), anchor as int),
{
    let ghost ls = str_views(lines@);
    let mut end = anchor;
    while end + 1 < lines.len()
        invariant
            anchor <= end < usize::MAX,
            ls == str_views(lines@),
            block_end_from(ls, anchor as int) == block_end_from(ls, end as int),
        decreases lines.len() - end,
    {
        if jsx_line_at(lines, end + 1) {
            end += 1;
        } else if blank_at(lines, end + 1) && end + 2 < lines.len() && jsx_line_at(lines, end + 2) {
            end += 2;
        } else {
            return end;
        }
    }
    end
}


/// Trimming twice is trimming once.
proof fn lemma_trim_twice(s: Seq<char>)
    ensures
        trim(trim(s)) == trim(s),
{
    lemma_ws_run_end(s, 0);
    lemma_ws_run_start(s, s.len() as int);
    let t = trim(s);
    lemma_ws_run_end(t, 0);
    lemma_ws_run_start(t, t.len() as int);
    let a = ws_run_end(s, 0);
    let b = ws_run_start(s, s.len() as int);
    if b > a {
        assert(t[0] == s[a]);
        assert(t[t.len() - 1] == s[b - 1]);
        if ws_run_end(t, 0) > 0 {
            assert(is_ws(t[0]));
        }
        if ws_run_start(t, t.len() as int) < t.len() {
            assert(is_ws(t[t.len() - 1]));
        }
        assert(t.subrange(0, t.len() as int) =~= t);
    } else {
        assert(t.len() == 0);
    }
}

/// A blank line is no `import`/`export` line.
proof fn lemma_blank_not_import(l: Seq<char>)
    requires
        is_blank_line(l),
    ensures
        !is_import_export(l),
{
    reveal_strlit("import ");
    reveal_strlit("export ");
}

proof fn lemma_block_start(ls: Seq<Seq<char>>, anchor: int, start: int)
    requires
        0 <= start <= anchor < ls.len(),
        forall|k: int| start <= k < anchor ==> is_import_export(#[trigger] ls[k]) || is_blank_line(ls[k]),
        start == anchor || is_import_export(ls[start]),
    ensures
        ({
            let r = block_start_from(ls, start);
            &&& 0 <= r <= start
            &&& r == anchor || is_import_export(ls[r])
            &&& forall|k: int| r <= k < anchor ==> is_import_export(#[trigger] ls[k]) || is_blank_line(ls[k])
            &&& forall|j: int| 0 <= j < r && is_import_export(#[trigger] ls[j]) ==> exists|m: int|
                j < m < r && !is_blank_line(#[trigger] ls[m])
        }),
    decreases start,
{
    if start > 0 {
        let prev = ls[start - 1];
        if is_import_export(prev) {
            lemma_block_start(ls, anchor, start - 1);
        } else if is_blank_line(prev) {
            let cand = skip_blank_back(ls, start - 1);
            lemma_skip_blank_back(ls, start - 1);
            lemma_skip_blank_span(ls, start - 1);
            if cand < start && is_import_export(ls[cand]) {
                lemma_block_start(ls, anchor, cand);
            } else {
                assert forall|j: int| 0 <= j < start && is_import_export(#[trigger] ls[j]) implies exists|m: int|
                    j < m < start && !is_blank_line(#[trigger] ls[m]) by {
                    if j > cand {
                        lemma_blank_not_import(ls[j]);
                    } else if j == cand {
                    } else {
                        assert(!is_blank_line(ls[cand]));
                    }
                }
            }
        } else {
            assert forall|j: int| 0 <= j < start && is_import_export(#[trigger] ls[j]) implies exists|m: int|
                j < m < start && !is_blank_line(#[trigger] ls[m]) by {
                assert(j < start - 1);
                assert(!is_blank_line(ls[start - 1]));
            }
        }
    }
}

proof fn lemma_skip_blank_span(ls: Seq<Seq<char>>, c: int)
    requires
        0 <= c < ls.len(),
    ensures
        forall|k: int| skip_blank_back(ls, c) < k <= c ==> is_blank_line(#[trigger] ls[k]),
        skip_blank_back(ls, c) > 0 ==> !is_blank_line(ls[skip_blank_back(ls, c)]),
    decreases c,
{
    if c > 0 && is_blank_line(ls[c]) {
        lemma_skip_blank_span(ls, c - 1);
    }
}

/// The start of a JSX block found from `anchor`: it lies at or before `anchor`, is
/// `anchor` itself or an `import`/`export` line, only `import`/`export` and blank lines
/// stand between it and `anchor`, and no `import`/`export` line before it is separated
/// from it by blank lines alone.
pub proof fn law_jsx_block_start(ls: Seq<Seq<char>>, anchor: int)
    requires
        0 <= anchor < ls.len(),
    ensures
        ({
            let r = block_start_from(ls, anchor);
            &&& 0 <= r <= anchor
            &&& r == anchor || is_import_export(ls[r])
            &&& forall|k: int| r <= k < anchor ==> is_import_export(#[trigger] ls[k]) || is_blank_line(ls[k])
            &&& !exists|j: int| 0 <= j < r && is_import_export(#[trigger] ls[j]) && forall|m: int|
                j < m < r ==> is_blank_line(#[trigger] ls[m])
        }),
{
    lemma_block_start(ls, anchor, anchor);
    let r = block_start_from(ls, anchor);
    if exists|j: int| 0 <= j < r && is_import_export(#[trigger] ls[j]) && forall|m: int|
        j < m < r ==> is_blank_line(#[trigger] ls[m]) {
        let j = choose|j: int| 0 <= j < r && is_import_export(#[trigger] ls[j]) && forall|m: int|
            j < m < r ==> is_blank_line(#[trigger] ls[m]);
        let m = choose|m: int| j < m < r && !is_blank_line(#[trigger] ls[m]);
        assert(is_blank_line(ls[m]));
    }
}

proof fn lemma_block_end(ls: Seq<Seq<char>>, anchor: int, end: int)
    requires
        0 <= anchor <= end < ls.len(),
        end == anchor || spec_is_jsx_line(ls[end]),
        forall|k: int| anchor < k <= end ==> spec_is_jsx_line(#[trigger] ls[k]) || (is_blank_line(ls[k]) && k < end
            && spec_is_jsx_line(ls[k + 1])),
    ensures
        ({
            let r = block_end_from(ls, end);
            &&& end <= r < ls.len()
            &&& r == anchor || spec_is_jsx_line(ls[r])
            &&& forall|k: int| anchor < k <= r ==> spec_is_jsx_line(#[trigger] ls[k]) || (is_blank_line(ls[k])
                && k < r && spec_is_jsx_line(ls[k + 1]))
            &&& r + 1 == ls.len() || (!spec_is_jsx_line(ls[r + 1]) && !(is_blank_line(ls[r + 1]) && r + 2
                < ls.len() && spec_is_jsx_line(ls[r + 2])))
        }),
    decreases ls.len() - end,
{
    if end + 1 < ls.len() {
        lemma_trim_twice(ls[end + 1]);
        if end + 2 < ls.len() {
            lemma_trim_twice(ls[end + 2]);
        }
        let next = trim(ls[end + 1]);
        if spec_is_jsx_line(next) {
            lemma_block_end(ls, anchor, end + 1);
        } else if next.len() == 0 && end + 2 < ls.len() && spec_is_jsx_line(trim(ls[end + 2])) {
            lemma_block_end(ls, anchor, end + 2);
        }
    }
}

/// The end of a JSX block found from `anchor`: it lies at or after `anchor`, is `anchor`
/// itself or a JSX line, every line after `anchor` up to it is a JSX line or a blank line
/// followed by one, and the block does not go on: the next line is no JSX line, nor a
/// blank line followed by one.
pub proof fn law_jsx_block_end(ls: Seq<Seq<char>>, anchor: int)
    requires
        0 <= anchor < ls.len(),
    ensures
        ({
            let r = block_end_from(ls, anchor);
            &&& anchor <= r < ls.len()
            &&& r == anchor || spec_is_jsx_line(ls[r])
            &&& forall|k: int| anchor < k <= r ==> spec_is_jsx_line(#[trigger] ls[k]) || (is_blank_line(ls[k])
                && k < r && spec_is_jsx_line(ls[k + 1]))
            &&& r + 1 == ls.len() || (!spec_is_jsx_line(ls[r + 1]) && !(is_blank_line(ls[r + 1]) && r + 2
                < ls.len() && spec_is_jsx_line(ls[r + 2])))
        }),
{
    lemma_block_end(ls, anchor, anchor);
}

} // verus!
