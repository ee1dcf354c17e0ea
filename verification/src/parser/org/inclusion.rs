//! `#+INCLUDE:` directives: recognising them, choosing the lines they take,
//! and where the included file lies.
//!
//! Supports:
//! - `#+INCLUDE: "file.org"` — the whole file
//! - `#+INCLUDE: file.org` — same without quotes (when filename has no spaces)
//! - `#+INCLUDE: "file.org" :lines "5-10"` — lines 5 through 10
//! - `#+INCLUDE: "file.org" :lines "5-"` — from line 5 to the end
//! - `#+INCLUDE: "file.org" :lines "-10"` — the first 10 lines
use vstd::prelude::*;
use crate::error::Error;
use crate::text::{
    find, find_char, find_char_at, find_seq, from_chars, has_prefix, lemma_find_char_from,
    lemma_trim_len, lemma_word_end, lines, lines_of, parse_unsigned, parse_usize, push_all,
    push_str, slice, starts_with_str, to_chars, trim, trim_chars, trim_start, trim_start_chars,
    views, word_end,
};

verus! {

/// A line range `(start, end)`, 1-based and inclusive; `None` leaves that side unbounded.
pub type LineRange = (Option<usize>, Option<usize>);

/// A parsed `#+INCLUDE:` directive.
pub struct IncludeDirective {
    pub file: String,
    pub line_range: Option<LineRange>,
}

/// The parameter value after `name` at the start of `s`: a quoted value, or the
/// text up to the next whitespace (which must not be empty).
pub open spec fn spec_strip_param(s: Seq<char>, name: Seq<char>) -> Option<Seq<char>> {
    if !has_prefix(s, name) {
        None
    } else {
        let a = trim_start(s.subrange(name.len() as int, s.len() as int));
        if a.len() > 0 && a[0] == '"' {
            match find_char(a.drop_first(), '"') {
                Some(e) => Some(a.subrange(1, 1 + e)),
                None => None,
            }
        } else {
            let end = word_end(a, 0);
            if end == 0 {
                None
            } else {
                Some(a.subrange(0, end))
            }
        }
    }
}

/// What follows the parameter `name` and its value `val` at the start of `s`, trimmed.
pub open spec fn spec_find_next_param(s: Seq<char>, name: Seq<char>, val: Seq<char>) -> Seq<char> {
    let after = trim_start(
        if has_prefix(s, name) {
            s.subrange(name.len() as int, s.len() as int)
        } else {
            s
        },
    );
    if after.len() > 0 && after[0] == '"' {
        match find_char(after.drop_first(), '"') {
            Some(e) => trim(after.subrange(e + 2, after.len() as int)),
            None => Seq::empty(),
        }
    } else {
        match find(after, val) {
            Some(p) => trim(after.subrange(p + val.len(), after.len() as int)),
            None => Seq::empty(),
        }
    }
}

/// `s` parsed as a line number with `str::parse::<usize>`.
pub open spec fn spec_line_number(s: Seq<char>) -> Option<usize> {
    match parse_unsigned(s, usize::MAX as nat) {
        Some(v) => Some(v as usize),
        None => None,
    }
}

/// A line range written `"5-10"`, `"5-"`, `"-10"` or `"5"`.
pub open spec fn spec_parse_line_range(s: Seq<char>) -> Option<LineRange> {
    if s.len() == 0 {
        None
    } else {
        match find_char(s, '-') {
            Some(d) => {
                let a = s.subrange(0, d);
                let b = s.subrange(d + 1, s.len() as int);
                let start: Option<Option<usize>> = if a.len() == 0 {
                    Some(None)
                } else {
                    match spec_line_number(a) {
                        Some(n) => Some(Some(n)),
                        None => None,
                    }
                };
                let end: Option<Option<usize>> = if b.len() == 0 {
                    Some(None)
                } else {
                    match spec_line_number(b) {
                        Some(n) => Some(Some(n)),
                        None => None,
                    }
                };
                match (start, end) {
                    (Some(st), Some(en)) => if st is None && en is None {
                        None
                    } else {
                        Some((st, en))
                    },
                    _ => None,
                }
            },
            None => match spec_line_number(s) {
                Some(n) => Some((Some(n), Some(n))),
                None => None,
            },
        }
    }
}

pub proof fn lemma_next_param_shorter(s: Seq<char>, name: Seq<char>, val: Seq<char>)
    requires
        has_prefix(s, name),
        name.len() > 0,
    ensures
        spec_find_next_param(s, name, val).len() < s.len(),
{
    let rest = s.subrange(name.len() as int, s.len() as int);
    let after = trim_start(rest);
    lemma_trim_len(rest);
    if after.len() > 0 && after[0] == '"' {
        match find_char(after.drop_first(), '"') {
            Some(e) => {
                lemma_find_char_from(after.drop_first(), '"', 0);
                lemma_trim_len(after.subrange(e + 2, after.len() as int));
            },
            None => {},
        }
    } else {
        match find(after, val) {
            Some(p) => {
                crate::text::lemma_find_from(after, val, 0);
                lemma_trim_len(after.subrange(p + val.len(), after.len() as int));
            },
            None => {},
        }
    }
}

/// The `:lines` parameters in `rem`, each one replacing the range before it.
/// `None` when a range is malformed.
pub open spec fn spec_params(rem: Seq<char>, range: Option<LineRange>) -> Option<Option<LineRange>>
    decreases rem.len(),
{
    if rem.len() == 0 {
        Some(range)
    } else {
        match spec_strip_param(rem, ":lines"@) {
            None => Some(range),
            Some(val) => match spec_parse_line_range(val) {
                None => None,
                Some(r) => {
                    proof {
                        reveal_strlit(":lines");
                        lemma_next_param_shorter(rem, ":lines"@, val);
                    }
                    spec_params(spec_find_next_param(rem, ":lines"@, val), Some(r))
                },
            },
        }
    }
}

/// An `#+INCLUDE:` line as (file, line range), or `None` when the line is not one.
pub open spec fn spec_include_directive(line: Seq<char>) -> Option<(Seq<char>, Option<LineRange>)> {
    if !has_prefix(line, "#+INCLUDE:"@) {
        None
    } else {
        let rest = trim(line.subrange("#+INCLUDE:"@.len() as int, line.len() as int));
        if rest.len() == 0 {
            None
        } else {
            let fr: Option<(Seq<char>, Seq<char>)> = if rest[0] == '"' {
                match find_char(rest.drop_first(), '"') {
                    Some(e) => Some(
                        (rest.subrange(1, 1 + e), trim(rest.subrange(e + 2, rest.len() as int))),
                    ),
                    None => None,
                }
            } else {
                let end = word_end(rest, 0);
                Some((rest.subrange(0, end), trim(rest.subrange(end, rest.len() as int))))
            };
            match fr {
                None => None,
                Some((file, remainder)) => match spec_params(remainder, None) {
                    Some(range) => Some((file, range)),
                    None => None,
                },
            }
        }
    }
}

/// The text of `ls[a..b]`, each line followed by a newline.
pub open spec fn lines_text(ls: Seq<Seq<char>>, a: int, b: int) -> Seq<char>
    decreases b - a,
{
    if b <= a {
        Seq::empty()
    } else {
        lines_text(ls, a, b - 1) + ls[b - 1] + seq!['\n']
    }
}

/// The index of the first line a range keeps, among `total` lines.
pub open spec fn range_start(r: LineRange, total: int) -> int {
    match r.0 {
        Some(s) => if s >= 1 {
            if s - 1 < total {
                s - 1
            } else {
                total
            }
        } else {
            0
        },
        None => 0,
    }
}

/// The index after the last line a range keeps, among `total` lines.
pub open spec fn range_end(r: LineRange, total: int) -> int {
    match r.1 {
        Some(e) => if e >= 1 {
            if e < total {
                e as int
            } else {
                total
            }
        } else {
            total
        },
        None => total,
    }
}

/// The part of `content` that a line range keeps.
pub open spec fn spec_line_filter(content: Seq<char>, range: Option<LineRange>) -> Seq<char> {
    match range {
        None => content,
        Some(r) => {
            let ls = lines(content);
            let a = range_start(r, ls.len() as int);
            let b = range_end(r, ls.len() as int);
            if ls.len() == 0 || a >= b {
                Seq::empty()
            } else {
                lines_text(ls, a, b)
            }
        },
    }
}

/// The lines `ls`, each followed by a newline.
pub open spec fn with_newlines(ls: Seq<Seq<char>>) -> Seq<char>
    decreases ls.len(),
{
    if ls.len() == 0 {
        Seq::empty()
    } else {
        with_newlines(ls.drop_last()) + ls[ls.len() - 1] + seq!['\n']
    }
}

proof fn lemma_lines_text(ls: Seq<Seq<char>>, a: int, b: int)
    requires
        0 <= a <= b <= ls.len(),
    ensures
        lines_text(ls, a, b) == with_newlines(ls.subrange(a, b)),
    decreases b - a,
{
    if a < b {
        lemma_lines_text(ls, a, b - 1);
        assert(ls.subrange(a, b).drop_last() =~= ls.subrange(a, b - 1));
    } else {
        assert(ls.subrange(a, b) =~= Seq::<Seq<char>>::empty());
    }
}

/// What a line range keeps, in closed form: with `n` lines, from line `a` (the range's
/// start less one, at most `n`, or 0) up to line `b` (its end, at most `n`, or `n`), each
/// kept line followed by a newline; nothing where `a` is not below `b`; all of the
/// content without a range.
pub proof fn law_line_filter_closed_form(content: Seq<char>, range: Option<LineRange>)
    ensures
        range is None ==> spec_line_filter(content, range) == content,
        range matches Some((s, e)) ==> ({
            let l = lines(content);
            let n = l.len() as int;
            let a = match s {
                Some(k) => if k >= 1 { if k - 1 < n { k - 1 } else { n } } else { 0 },
                None => 0,
            };
            let b = match e {
                Some(k) => if k >= 1 { if k < n { k as int } else { n } } else { n },
                None => n,
            };
            spec_line_filter(content, range) == if a < b {
                with_newlines(l.subrange(a, b))
            } else {
                Seq::empty()
            }
        }),
{
    if let Some(r) = range {
        let l = lines(content);
        let n = l.len() as int;
        let a = range_start(r, n);
        let b = range_end(r, n);
        if a < b {
            lemma_lines_text(l, a, b);
        }
    }
}

/// Strip a parameter value from the beginning of `s`.
/// Returns the value if `s` starts with `param_name ` and the value.
pub fn strip_param(s: &[char], param_name: &[char]) -> (r: Option<Vec<char>>)
    ensures
        r matches Some(v) ==> spec_strip_param(s@, param_name@) == Some(v@),
        r is None ==> spec_strip_param(s@, param_name@) is None,
{
    if !crate::text::starts_with(s, param_name) {
        return None;
    }
    let rest = slice(s, param_name.len(), s.len());
    let a = trim_start_chars(&rest);
    if a.len() > 0 && a[0] == '"' {
        let inner = slice(&a, 1, a.len());
        assert(inner@ == a@.drop_first());
        match find_char_at(&inner, '"', 0) {
            Some(e) => Some(slice(&a, 1, 1 + e)),
            None => None,
        }
    } else {
        let end = word_end_at(&a, 0);
        if end == 0 {
            None
        } else {
            Some(slice(&a, 0, end))
        }
    }
}

/// The end of the run of non-whitespace characters starting at `from`.
pub fn word_end_at(s: &[char], from: usize) -> (r: usize)
    requires
        from <= s@.len(),
    ensures
        r as int == word_end(s@, from as int),
        from <= r <= s@.len(),
{
    proof {
        lemma_word_end(s@, from as int);
    }
    let mut b = from;
    while b < s.len() && !crate::text::is_whitespace(s[b])
        invariant
            from <= b <= s@.len(),
            word_end(s@, from as int) == word_end(s@, b as int),
        decreases s.len() - b,
    {
        b += 1;
    }
    b
}

/// Find the start of the next parameter after consuming `param_name` and `param_val`.
pub fn find_next_param(s: &[char], param_name: &[char], param_val: &[char]) -> (r: Vec<char>)
    ensures
        r@ == spec_find_next_param(s@, param_name@, param_val@),
{
    let base = if crate::text::starts_with(s, param_name) {
        slice(s, param_name.len(), s.len())
    } else {
        slice(s, 0, s.len())
    };
    assert(s@.subrange(0, s@.len() as int) =~= s@);
    let after = trim_start_chars(&base);
    if after.len() > 0 && after[0] == '"' {
        let inner = slice(&after, 1, after.len());
        assert(inner@ == after@.drop_first());
        if let Some(e) = find_char_at(&inner, '"', 0) {
            proof {
                lemma_find_char_from(inner@, '"', 0);
            }
            let tail = slice(&after, e + 2, after.len());
            return trim_chars(&tail);
        }
    } else {
        if let Some(p) = find_seq(&after, param_val) {
            proof {
                crate::text::lemma_find_from(after@, param_val@, 0);
            }
            let tail = slice(&after, p + param_val.len(), after.len());
            return trim_chars(&tail);
        }
    }
    Vec::new()
}

fn line_number(s: &[char]) -> (r: Option<usize>)
    ensures
        r == spec_line_number(s@),
{
    match parse_usize(s) {
        Some(n) => Some(n),
        None => None,
    }
}

/// Parse a line range string like "5-10", "5-", "-10", or "5".
/// Returns None if the format is invalid.
pub fn parse_line_range(s: &[char]) -> (r: Option<LineRange>)
    ensures
        r == spec_parse_line_range(s@),
{
    if s.len() == 0 {
        return None;
    }
    match find_char_at(s, '-', 0) {
        Some(d) => {
            let a = slice(s, 0, d);
            let b = slice(s, d + 1, s.len());
            let start = if a.len() == 0 {
                None
            } else {
                match line_number(&a) {
                    Some(n) => Some(n),
                    None => return None,
                }
            };
            let end = if b.len() == 0 {
                None
            } else {
                match line_number(&b) {
                    Some(n) => Some(n),
                    None => return None,
                }
            };
            if start.is_none() && end.is_none() {
                return None;
            }
            Some((start, end))
        },
        None => match line_number(s) {
            Some(n) => Some((Some(n), Some(n))),
            None => None,
        },
    }
}

/// Parse an `#+INCLUDE:` directive line.
/// Returns None if the line is not an include directive.
pub fn parse_include_directive(line: &str) -> (r: Option<IncludeDirective>)
    ensures
        r matches Some(d) ==> spec_include_directive(line@) == Some((d.file@, d.line_range)),
        r is None ==> spec_include_directive(line@) is None,
{
    let l = to_chars(line);
    let prefix = to_chars("#+INCLUDE:");
    if !crate::text::starts_with(&l, &prefix) {
        return None;
    }
    let rest0 = slice(&l, prefix.len(), l.len());
    let rest = trim_chars(&rest0);
    if rest.len() == 0 {
        return None;
    }
    let file;
    let remainder;
    if rest[0] == '"' {
        let inner = slice(&rest, 1, rest.len());
        assert(inner@ == rest@.drop_first());
        match find_char_at(&inner, '"', 0) {
            Some(e) => {
                proof {
                    lemma_find_char_from(inner@, '"', 0);
                }
                file = slice(&rest, 1, 1 + e);
                let tail = slice(&rest, e + 2, rest.len());
                remainder = trim_chars(&tail);
            },
            None => return None,
        }
    } else {
        let end = word_end_at(&rest, 0);
        file = slice(&rest, 0, end);
        let tail = slice(&rest, end, rest.len());
        remainder = trim_chars(&tail);
    }
    let name = to_chars(":lines");
    proof {
        reveal_strlit(":lines");
    }
    let mut line_range: Option<LineRange> = None;
    let mut remaining = remainder;
    loop
        invariant
            name@ == ":lines"@,
            name@.len() == 6,
            spec_params(remainder@, None) == spec_params(remaining@, line_range),
            spec_include_directive(line@) == match spec_params(remainder@, None) {
                Some(r) => Some((file@, r)),
                None => None,
            },
        ensures
            spec_params(remainder@, None) == Some(line_range),
        decreases remaining@.len(),
    {
        if remaining.len() == 0 {
            break;
        }
        match strip_param(&remaining, &name) {
            Some(val) => {
                match parse_line_range(&val) {
                    Some(r) => {
                        line_range = Some(r);
                    },
                    None => {
                        assert(spec_params(remaining@, line_range) is None);
                        return None;
                    },
                }
                proof {
                    lemma_next_param_shorter(remaining@, name@, val@);
                }
                remaining = find_next_param(&remaining, &name, &val);
            },
            None => {
                break;
            },
        }
    }
    assert(spec_params(remainder@, None) == Some(line_range));
    Some(IncludeDirective { file: from_chars(&file), line_range })
}

/// Apply line filtering to content based on the line range.
pub fn apply_line_filter(content: &str, range: Option<LineRange>) -> (r: String)
    ensures
        r@ == spec_line_filter(content@, range),
{
    let c = to_chars(content);
    let out = filter_lines(&c, range);
    from_chars(&out)
}

/// Keeps the lines of `content` that `range` selects.
pub fn filter_lines(content: &[char], range: Option<LineRange>) -> (r: Vec<char>)
    ensures
        r@ == spec_line_filter(content@, range),
{
    let (start, end) = match range {
        None => return slice(content, 0, content.len()),
        Some(r) => r,
    };
    let ls = lines_of(content);
    let total = ls.len();
    if total == 0 {
        return Vec::new();
    }
    let start_idx = match start {
        Some(s) => if s >= 1 {
            if s - 1 < total {
                s - 1
            } else {
                total
            }
        } else {
            0
        },
        None => 0,
    };
    let end_idx = match end {
        Some(e) => if e >= 1 {
            if e < total {
                e
            } else {
                total
            }
        } else {
            total
        },
        None => total,
    };
    if start_idx >= end_idx {
        return Vec::new();
    }
    let ghost lv = views(ls@);
    let mut result: Vec<char> = Vec::new();
    let mut i = start_idx;
    while i < end_idx
        invariant
            start_idx <= i <= end_idx <= ls@.len(),
            lv == views(ls@),
            result@ == lines_text(lv, start_idx as int, i as int),
        decreases end_idx - i,
    {
        push_all(&mut result, &ls[i]);
        result.push('\n');
        i += 1;
    }
    result
}

/// Whether a path is absolute: on Unix, it starts at the root `/`.
pub open spec fn spec_is_absolute(p: Seq<char>) -> bool {
    p.len() > 0 && p[0] == '/'
}

/// `base_dir.join(file)`: an absolute `file` replaces the base; otherwise `file` is
/// appended, with a `/` between them unless the base is empty or already ends with one.
pub open spec fn spec_resolve_path(file: Seq<char>, base: Seq<char>) -> Seq<char> {
    if spec_is_absolute(file) {
        file
    } else if base.len() == 0 || base[base.len() - 1] == '/' {
        base + file
    } else {
        base + seq!['/'] + file
    }
}

/// Resolve a file path relative to `base_dir`.
/// Handles both absolute paths and relative paths.
pub fn resolve_path(file: &str, base_dir: &str) -> (r: String)
    ensures
        r@ == spec_resolve_path(file@, base_dir@),
{
    let f = to_chars(file);
    let b = to_chars(base_dir);
    if f.len() > 0 && f[0] == '/' {
        return from_chars(&f);
    }
    let mut out = slice(&b, 0, b.len());
    assert(b@.subrange(0, b@.len() as int) =~= b@);
    if !(b.len() == 0 || b[b.len() - 1] == '/') {
        out.push('/');
    }
    push_all(&mut out, &f);
    from_chars(&out)
}

/// What one line of an including file turns into.
pub enum IncludeLine {
    /// The line itself, to be copied followed by a newline.
    Text(String),
    /// The content of `path`, restricted to `range`, takes the line's place.
    Include { path: String, range: Option<LineRange> },
}

/// What `resolve_includes` does with `line`, read from a file in `base_dir`.
pub open spec fn spec_include_line(line: Seq<char>, base: Seq<char>) -> Result<Seq<char>, (Seq<char>, Option<LineRange>)> {
    match spec_include_directive(trim(line)) {
        Some((file, range)) => Err((spec_resolve_path(file, base), range)),
        None => Ok(line),
    }
}

/// Classifies one line of an including file: an `#+INCLUDE:` directive (after
/// trimming) becomes a request for the resolved file, any other line is kept.
pub fn include_line(line: &str, base_dir: &str) -> (r: IncludeLine)
    ensures
        r matches IncludeLine::Text(t) ==> spec_include_line(line@, base_dir@) == Ok::<Seq<char>, (Seq<char>, Option<LineRange>)>(t@),
        r matches IncludeLine::Include { path, range } ==> spec_include_line(line@, base_dir@) == Err::<Seq<char>, (Seq<char>, Option<LineRange>)>((path@, range)),
{
    let t = trim_chars(&to_chars(line));
    let ts = from_chars(&t);
    match parse_include_directive(ts.as_str()) {
        Some(d) => IncludeLine::Include { path: resolve_path(d.file.as_str(), base_dir), range: d.line_range },
        None => IncludeLine::Text(from_chars(&to_chars(line))),
    }
}

/// The depth check of `resolve_includes`: nesting `depth` levels deep is refused
/// once it reaches `max_depth`.
pub fn check_include_depth(depth: usize, max_depth: usize) -> (r: Result<(), Error>)
    ensures
        r is Ok <==> depth < max_depth,
        r matches Err(e) ==> e matches Error::InvalidInput(m) && m@
            == "#+INCLUDE: exceeded maximum recursion depth of "@ + crate::text::dec(max_depth as nat),
{
    if depth >= max_depth {
        let mut msg = to_chars("#+INCLUDE: exceeded maximum recursion depth of ");
        let d = crate::text::dec_chars(max_depth as u64);
        push_all(&mut msg, &d);
        proof {
            reveal_strlit("#+INCLUDE: exceeded maximum recursion depth of ");
        }
        return Err(Error::InvalidInput(from_chars(&msg)));
    }
    Ok(())
}

/// The included text as it is spliced in: the filtered content, followed by a
/// newline unless it already ends with one.
pub open spec fn spec_spliced(content: Seq<char>, range: Option<LineRange>) -> Seq<char> {
    let f = spec_line_filter(content, range);
    if f.len() > 0 && f[f.len() - 1] == '\n' {
        f
    } else {
        f.push('\n')
    }
}

/// Appends to `out` the text that replaces an `#+INCLUDE:` line whose file,
/// with its own includes resolved, holds `content`.
pub fn splice_included(out: &mut String, content: &str, range: Option<LineRange>)
    ensures
        final(out)@ == old(out)@ + spec_spliced(content@, range),
{
    let filtered = filter_lines(&to_chars(content), range);
    let mut v = filtered;
    if !(v.len() > 0 && v[v.len() - 1] == '\n') {
        v.push('\n');
    }
    out.append(from_chars(&v).as_str());
}

} // verus!
