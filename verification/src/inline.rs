//! Org inline markup written straight out as Markdown text, without building nodes.
use vstd::prelude::*;
use crate::parser::inline::{
    alias_lookup, amp_escape, amp_escape_chars, dbl, desc_close_at, desc_escape_chars,
    image_path, is_image_path, lemma_dbl_pos, lemma_dbl_skip, lemma_dbl_sub, lemma_desc_close,
    lemma_link_parts, lemma_markup_end, lemma_no_dbl_zero, lemma_prefix_at, lemma_target_close,
    lemma_url_end, link_parts, link_target_end, markup_at, spec_markup_at, target_close_at,
    url_end, LinkAliases,
};
use crate::text::{
    char_alphanumeric, from_chars, has_prefix, is_alphanumeric, is_whitespace, matches_at,
    occurs_at, push_all, push_str, slice, starts_with_str, to_chars,
};
use crate::util::{escape_url_parens_chars, pct_encode_chars, spec_escape_url_parens, spec_pct_encode};

verus! {

/// `[text](url)`.
pub open spec fn md_link(text: Seq<char>, url: Seq<char>) -> Seq<char> {
    "["@ + text + "]("@ + url + ")"@
}

/// The Markdown for the `[[...]]` link starting at `start`, and the characters it takes.
pub open spec fn spec_link_md(s: Seq<char>, al: Seq<(Seq<char>, Seq<char>)>, start: int) -> (Seq<char>, int)
    decreases dbl(s), s.len(), 0int,
{
    if !(0 <= start && start + 1 < s.len() && s[start] == '[' && s[start + 1] == '[') {
        (Seq::empty(), 2)
    } else {
        let (target, desc, n) = link_parts(s, start);
        proof {
            lemma_link_parts(s, start);
            lemma_dbl_pos(s, start);
            lemma_dbl_sub(s, start + 2, link_target_end(s, start));
            if desc is Some {
                lemma_no_dbl_zero(desc->0);
            }
        }
        if has_prefix(target, "file:"@) {
            let path = target.subrange(5, target.len() as int);
            proof {
                reveal_strlit("file:");
                lemma_dbl_skip(target, 5);
            }
            let enc = spec_pct_encode(path);
            if is_image_path(path) && desc is None {
                (md_link("img"@, enc), n)
            } else {
                let display = match desc {
                    Some(d) => d,
                    None => path,
                };
                (md_link(spec_convert_from(display, al, 0), "file:"@ + enc), n)
            }
        } else {
            match alias_lookup(al, target) {
                Some(url) => {
                    let display = match desc {
                        Some(d) => d,
                        None => target,
                    };
                    (md_link(spec_convert_from(display, al, 0), spec_escape_url_parens(url)), n)
                },
                None => match desc {
                    Some(d) => (md_link(spec_convert_from(d, al, 0), spec_escape_url_parens(target)), n),
                    None => (md_link(amp_escape(target), spec_escape_url_parens(target)), n),
                },
            }
        }
    }
}

/// The first `}` at or after `j`, or the end.
pub open spec fn brace_close(s: Seq<char>, j: int) -> int
    decreases s.len() - j,
{
    if 0 <= j < s.len() && s[j] != '}' {
        brace_close(s, j + 1)
    } else {
        j
    }
}

pub proof fn lemma_brace_close(s: Seq<char>, j: int)
    requires
        0 <= j <= s.len(),
    ensures
        j <= brace_close(s, j) <= s.len(),
    decreases s.len() - j,
{
    if j < s.len() && s[j] != '}' {
        lemma_brace_close(s, j + 1);
    }
}

/// The Markdown of `s[i..]`.
pub open spec fn spec_convert_from(s: Seq<char>, al: Seq<(Seq<char>, Seq<char>)>, i: int) -> Seq<char>
    decreases dbl(s), s.len(), s.len() - i,
{
    if i < 0 || i >= s.len() {
        Seq::empty()
    } else {
        let rest = s.subrange(i, s.len() as int);
        if i + 1 < s.len() && s[i] == '[' && s[i + 1] == '[' {
            let n = link_parts(s, i).2;
            proof {
                lemma_link_parts(s, i);
            }
            spec_link_md(s, al, i).0 + spec_convert_from(s, al, i + n)
        } else if has_prefix(rest, "http://"@) || has_prefix(rest, "https://"@) {
            let j = url_end(s, i);
            proof {
                reveal_strlit("http://");
                reveal_strlit("https://");
                if has_prefix(rest, "http://"@) {
                    assert(rest.subrange(0, 7)[0] == rest[0]);
                } else {
                    assert(rest.subrange(0, 8)[0] == rest[0]);
                }
                lemma_url_end(s, i + 1);
            }
            let url = s.subrange(i, j);
            md_link(url, spec_escape_url_parens(url)) + spec_convert_from(s, al, j)
        } else {
            let c = s[i];
            let wrapped = if c == '*' || c == '/' || c == '+' {
                spec_markup_at(s, i, c)
            } else {
                None
            };
            match wrapped {
                Some((inner, n)) => {
                    proof {
                        lemma_markup_end(s, c, i + 1);
                        lemma_dbl_sub(s, i + 1, i + n - 1);
                    }
                    let mark = if c == '*' {
                        "**"@
                    } else if c == '/' {
                        "*"@
                    } else {
                        "~~"@
                    };
                    mark + spec_convert_from(inner, al, 0) + mark + spec_convert_from(s, al, i + n)
                },
                None => spec_convert_tail(s, al, i),
            }
        }
    }
}

/// The Markdown of `s[i..]` when no link, bare URL, bold, italic or strike-through starts at `i`.
pub open spec fn spec_convert_tail(s: Seq<char>, al: Seq<(Seq<char>, Seq<char>)>, i: int) -> Seq<char>
    decreases dbl(s), s.len(), s.len() - i, 0int,
{
    if i < 0 || i >= s.len() {
        Seq::empty()
    } else {
        let c = s[i];
        let code = if c == '=' || c == '~' {
            spec_markup_at(s, i, c)
        } else {
            None
        };
        proof {
            lemma_markup_end(s, c, i + 1);
        }
        if code is Some {
            let (inner, n) = code->0;
            "`"@ + inner + "`"@ + spec_convert_from(s, al, i + n)
        } else if c == '~' {
            "\\~"@ + spec_convert_from(s, al, i + 1)
        } else if c == '_' && i > 0 && char_alphanumeric(s[i - 1]) && i + 1 < s.len() && s[i + 1] == '{' {
            let j = brace_close(s, i + 2);
            proof {
                lemma_brace_close(s, i + 2);
            }
            s.subrange(i + 2, j) + spec_convert_from(s, al, if j < s.len() { j + 1 } else { j })
        } else {
            seq![c] + spec_convert_from(s, al, i + 1)
        }
    }
}

/// Pushes `[text](url)` onto `out`.
fn push_md_link(out: &mut Vec<char>, text: &[char], url: &[char])
    ensures
        final(out)@ == old(out)@ + md_link(text@, url@),
{
    let ghost o = out@;
    push_str(out, "[");
    push_all(out, text);
    push_str(out, "](");
    push_all(out, url);
    push_str(out, ")");
    assert(out@ =~= o + md_link(text@, url@));
}

/// The Markdown of the link at `start` (which holds `[[`) and the characters it takes.
fn parse_link_at(s: &[char], start: usize, al: &LinkAliases) -> (r: (Vec<char>, usize))
    requires
        start + 1 < s@.len(),
        s@[start as int] == '[',
        s@[start + 1] == '[',
    ensures
        (r.0@, r.1 as int) == spec_link_md(s@, al@, start as int),
        r.1 as int == link_parts(s@, start as int).2,
    decreases dbl(s@), s@.len(), 0int,
{
    let len = s.len();
    let tc = target_close_at(s, start + 2);
    proof {
        lemma_target_close(s@, start + 2, 1);
    }
    let e = match tc {
        Some(k) => k,
        None => len,
    };
    let target = slice(s, start + 2, e);
    let mut i: usize = match tc {
        Some(k) => k + 1,
        None => len,
    };
    let mut desc: Option<Vec<char>> = None;
    if i < len && s[i] == '[' {
        let dc = desc_close_at(s, i + 1);
        proof {
            lemma_desc_close(s@, i + 1);
        }
        match dc {
            Some(k) => {
                desc = Some(desc_escape_chars(s, i + 1, k));
                i = k + 2;
            },
            None => {
                desc = Some(desc_escape_chars(s, i + 1, len));
                i = len;
            },
        }
    } else if i < len && s[i] == ']' {
        i = i + 1;
    }
    let consumed = i - start;
    let ghost dv: Option<Seq<char>> = match &desc {
        Some(d) => Some(d@),
        None => None,
    };
    proof {
        lemma_link_parts(s@, start as int);
        lemma_dbl_pos(s@, start as int);
        lemma_dbl_sub(s@, start + 2, e as int);
        assert(link_parts(s@, start as int) == (target@, dv, consumed as int));
        if dv is Some {
            lemma_no_dbl_zero(dv->0);
        }
    }
    let mut out: Vec<char> = Vec::new();
    if starts_with_str(&target, "file:") {
        proof {
            reveal_strlit("file:");
            lemma_dbl_skip(target@, 5);
        }
        let path = slice(&target, 5, target.len());
        let enc = pct_encode_chars(&path);
        if image_path(&path) && desc.is_none() {
            push_md_link(&mut out, &to_chars("img"), &enc);
        } else {
            let display = match desc {
                Some(d) => d,
                None => slice(&target, 5, target.len()),
            };
            let text = convert_chars(&display, al);
            let mut url = to_chars("file:");
            push_all(&mut url, &enc);
            push_md_link(&mut out, &text, &url);
        }
        return (out, consumed);
    }
    match al.get(&target) {
        Some(url) => {
            let display = match desc {
                Some(d) => d,
                None => slice(&target, 0, target.len()),
            };
            proof {
                assert(target@.subrange(0, target@.len() as int) =~= target@);
            }
            let text = convert_chars(&display, al);
            let esc = escape_url_parens_chars(&url);
            push_md_link(&mut out, &text, &esc);
        },
        None => {
            let esc = escape_url_parens_chars(&target);
            match desc {
                Some(d) => {
                    let text = convert_chars(&d, al);
                    push_md_link(&mut out, &text, &esc);
                },
                None => {
                    let t = amp_escape_chars(&target);
                    push_md_link(&mut out, &t, &esc);
                },
            }
        },
    }
    (out, consumed)
}

/// The Markdown of the next piece of `s` from `i` and where the rest starts.
fn convert_step(s: &[char], al: &LinkAliases, i: usize) -> (r: (Vec<char>, usize))
    requires
        i < s@.len(),
    ensures
        i < r.1 <= s@.len(),
        spec_convert_from(s@, al@, i as int) == r.0@ + spec_convert_from(s@, al@, r.1 as int),
    decreases dbl(s@), s@.len(), 2int,
{
    let len = s.len();
    if i + 1 < len && s[i] == '[' && s[i + 1] == '[' {
        let (md, n) = parse_link_at(s, i, al);
        proof {
            lemma_link_parts(s@, i as int);
        }
        return (md, i + n);
    }
    let http = to_chars("http://");
    let https = to_chars("https://");
    proof {
        lemma_prefix_at(s@, http@, i as int);
        lemma_prefix_at(s@, https@, i as int);
    }
    if matches_at(s, &http, i) || matches_at(s, &https, i) {
        let mut j: usize = i;
        proof {
            reveal_strlit("http://");
            reveal_strlit("https://");
            if occurs_at(s@, http@, i as int) {
                assert(s@.subrange(i as int, i + 7)[0] == s@[i as int]);
            } else {
                assert(s@.subrange(i as int, i + 8)[0] == s@[i as int]);
            }
        }
        while j < len && !is_whitespace(s[j])
            invariant
                i <= j <= len == s@.len(),
                url_end(s@, i as int) == url_end(s@, j as int),
            decreases len - j,
        {
            j += 1;
        }
        let url = slice(s, i, j);
        let esc = escape_url_parens_chars(&url);
        let mut out: Vec<char> = Vec::new();
        push_md_link(&mut out, &url, &esc);
        return (out, j);
    }
    let c = s[i];
    if c == '*' || c == '/' || c == '+' {
        match markup_at(s, i, c) {
            Some((inner, n)) => {
                proof {
                    lemma_markup_end(s@, c, i + 1);
                    lemma_dbl_sub(s@, i + 1, i + n - 1);
                }
                let body = convert_chars(&inner, al);
                let mark = if c == '*' {
                    "**"
                } else if c == '/' {
                    "*"
                } else {
                    "~~"
                };
                let mut out: Vec<char> = Vec::new();
                push_str(&mut out, mark);
                push_all(&mut out, &body);
                push_str(&mut out, mark);
                return (out, i + n);
            },
            None => {},
        }
    }
    convert_tail_step(s, al, i)
}

/// The Markdown of the next piece of `s` from `i` when no link, bare URL, bold, italic or
/// strike-through starts there, and where the rest starts.
fn convert_tail_step(s: &[char], al: &LinkAliases, i: usize) -> (r: (Vec<char>, usize))
    requires
        i < s@.len(),
    ensures
        i < r.1 <= s@.len(),
        spec_convert_tail(s@, al@, i as int) == r.0@ + spec_convert_from(s@, al@, r.1 as int),
    decreases dbl(s@), s@.len(), 1int,
{
    let len = s.len();
    let c = s[i];
    proof {
        lemma_markup_end(s@, c, i + 1);
    }
    let mut out: Vec<char> = Vec::new();
    if c == '=' || c == '~' {
        match markup_at(s, i, c) {
            Some((inner, n)) => {
                push_str(&mut out, "`");
                push_all(&mut out, &inner);
                push_str(&mut out, "`");
                return (out, i + n);
            },
            None => {},
        }
    }
    if c == '~' {
        push_str(&mut out, "\\~");
        return (out, i + 1);
    }
    if c == '_' && i > 0 && is_alphanumeric(s[i - 1]) && i + 1 < len && s[i + 1] == '{' {
        let mut j: usize = i + 2;
        proof {
            lemma_brace_close(s@, i + 2);
        }
        while j < len && s[j] != '}'
            invariant
                i + 2 <= j <= len == s@.len(),
                brace_close(s@, i + 2) == brace_close(s@, j as int),
                out@ == s@.subrange(i + 2, j as int),
            decreases len - j,
        {
            out.push(s[j]);
            j += 1;
            assert(out@ =~= s@.subrange(i + 2, j as int));
        }
        let next = if j < len {
            j + 1
        } else {
            j
        };
        return (out, next);
    }
    out.push(c);
    assert(out@ =~= seq![c]);
    (out, i + 1)
}

/// The Markdown of the inline markup of `s`.
fn convert_chars(s: &[char], al: &LinkAliases) -> (r: Vec<char>)
    ensures
        r@ == spec_convert_from(s@, al@, 0),
    decreases dbl(s@), s@.len(), 3int,
{
    let mut out: Vec<char> = Vec::new();
    let mut i: usize = 0;
    assert(spec_convert_from(s@, al@, 0) =~= out@ + spec_convert_from(s@, al@, 0));
    while i < s.len()
        invariant
            i <= s@.len(),
            spec_convert_from(s@, al@, 0) == out@ + spec_convert_from(s@, al@, i as int),
        decreases s.len() - i,
    {
        let (piece, next) = convert_step(s, al, i);
        let ghost before = out@;
        push_all(&mut out, &piece);
        proof {
            assert(before + piece@ + spec_convert_from(s@, al@, next as int) =~= before + (piece@
                + spec_convert_from(s@, al@, next as int)));
        }
        i = next;
    }
    assert(out@ + spec_convert_from(s@, al@, i as int) =~= out@);
    out
}

/// Converts the Org inline markup of `text` to Markdown: links and images, bare URLs,
/// bold, italic, strike-through, verbatim and code, and `x_{sub}` subscripts.
pub fn convert_inline(text: &str, link_aliases: &LinkAliases) -> (r: String)
    ensures
        r@ == spec_convert_from(text@, link_aliases@, 0),
{
    let chars = to_chars(text);
    from_chars(&convert_chars(&chars, link_aliases))
}

} // verus!
