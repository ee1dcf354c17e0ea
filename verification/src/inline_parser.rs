//! Org inline markup read into a small tree of its own: text, emphasis, code, links
//! and images.
use vstd::prelude::*;
use crate::parser::inline::{
    alias_lookup, amp_escape, amp_escape_chars, dbl, desc_close_at, desc_escape_chars,
    image_path, is_image_path, lemma_dbl_pos, lemma_dbl_skip, lemma_dbl_sub, lemma_desc_close,
    lemma_link_parts, lemma_markup_end, lemma_no_dbl_zero, lemma_prefix_at, lemma_target_close,
    lemma_url_end, link_parts, link_target_end, markup_at, spec_markup_at, target_close_at,
    url_end, LinkAliases,
};
use crate::text::{
    from_chars, has_prefix, is_whitespace, matches_at, occurs_at, push_all, slice,
    starts_with_str, to_chars,
};
use crate::util::{escape_url_parens_chars, pct_encode_chars, spec_escape_url_parens, spec_pct_encode};

verus! {

/// A piece of inline markup.
pub enum Inline {
    Text(String),
    Bold(Vec<Inline>),
    Italic(Vec<Inline>),
    StrikeThrough(Vec<Inline>),
    Verbatim(String),
    Code(String),
    Link(Link),
    Image(Image),
}

/// A link: where it points and what it shows.
pub struct Link {
    pub url: String,
    pub text: Vec<Inline>,
}

/// An image: where it is and its alternative text.
pub struct Image {
    pub url: String,
    pub alt_text: Option<String>,
}

/// The mathematical form of a piece of inline markup.
pub enum SInline {
    Text(Seq<char>),
    Bold(Seq<SInline>),
    Italic(Seq<SInline>),
    StrikeThrough(Seq<SInline>),
    Verbatim(Seq<char>),
    Code(Seq<char>),
    Link(Seq<char>, Seq<SInline>),
    Image(Seq<char>, Option<Seq<char>>),
}

pub open spec fn inline_view(x: Inline) -> SInline
    decreases x, 1nat,
{
    match x {
        Inline::Text(t) => SInline::Text(t@),
        Inline::Bold(c) => SInline::Bold(inlines_view(c@)),
        Inline::Italic(c) => SInline::Italic(inlines_view(c@)),
        Inline::StrikeThrough(c) => SInline::StrikeThrough(inlines_view(c@)),
        Inline::Verbatim(t) => SInline::Verbatim(t@),
        Inline::Code(t) => SInline::Code(t@),
        Inline::Link(l) => SInline::Link(l.url@, inlines_view(l.text@)),
        Inline::Image(i) => SInline::Image(
            i.url@,
            match i.alt_text {
                Some(a) => Some(a@),
                None => None,
            },
        ),
    }
}

pub open spec fn inlines_view(s: Seq<Inline>) -> Seq<SInline>
    decreases s, 0nat,
{
    if s.len() == 0 {
        Seq::empty()
    } else {
        inlines_view(s.drop_last()).push(inline_view(s[s.len() - 1]))
    }
}

impl View for Inline {
    type V = SInline;

    open spec fn view(&self) -> SInline {
        inline_view(*self)
    }
}

proof fn lemma_inlines_view_push(s: Seq<Inline>, x: Inline)
    ensures
        inlines_view(s.push(x)) == inlines_view(s).push(x@),
{
    assert(s.push(x).drop_last() =~= s);
}

/// The piece made from the `[[...]]` link at `start`, and the characters it takes.
pub open spec fn spec_link_inline(s: Seq<char>, al: Seq<(Seq<char>, Seq<char>)>, start: int) -> (SInline, int)
    decreases dbl(s), s.len(), 0int,
{
    if !(0 <= start && start + 1 < s.len() && s[start] == '[' && s[start + 1] == '[') {
        (SInline::Text(Seq::empty()), 2)
    } else {
        let (target, desc, n) = link_parts(s, start);
        proof {
            lemma_link_parts(s, start);
            lemma_dbl_pos(s, start);
            lemma_dbl_sub(s, start + 2, link_target_end(s, start));
            if desc is Some {
                lemma_no_dbl_zero(desc->0);
            }
        }
        if has_prefix(target, "file:"@) {
            let path = target.subrange(5, target.len() as int);
            proof {
                reveal_strlit("file:");
                lemma_dbl_skip(target, 5);
            }
            let enc = spec_pct_encode(path);
            let shown = match desc {
                Some(d) => d,
                None => path,
            };
            if is_image_path(path) {
                (SInline::Image(enc, Some(shown)), n)
            } else {
                (SInline::Link("file:"@ + enc, spec_inlines_from(shown, al, 0)), n)
            }
        } else {
            match alias_lookup(al, target) {
                Some(url) => {
                    let shown = match desc {
                        Some(d) => d,
                        None => target,
                    };
                    (SInline::Link(spec_escape_url_parens(url), spec_inlines_from(shown, al, 0)), n)
                },
                None => match desc {
                    Some(d) => (SInline::Link(spec_escape_url_parens(target), spec_inlines_from(d, al, 0)), n),
                    None => (
                        SInline::Link(spec_escape_url_parens(target), seq![SInline::Text(amp_escape(target))]),
                        n,
                    ),
                },
            }
        }
    }
}

/// The inline pieces of `s[i..]`.
pub open spec fn spec_inlines_from(s: Seq<char>, al: Seq<(Seq<char>, Seq<char>)>, i: int) -> Seq<SInline>
    decreases dbl(s), s.len(), s.len() - i,
{
    if i < 0 || i >= s.len() {
        Seq::empty()
    } else {
        let rest = s.subrange(i, s.len() as int);
        if i + 1 < s.len() && s[i] == '[' && s[i + 1] == '[' {
            let n = link_parts(s, i).2;
            proof {
                lemma_link_parts(s, i);
            }
            seq![spec_link_inline(s, al, i).0] + spec_inlines_from(s, al, i + n)
        } else if has_prefix(rest, "http://"@) || has_prefix(rest, "https://"@) {
            let j = url_end(s, i);
            proof {
                reveal_strlit("http://");
                reveal_strlit("https://");
                if has_prefix(rest, "http://"@) {
                    assert(rest.subrange(0, 7)[0] == rest[0]);
                } else {
                    assert(rest.subrange(0, 8)[0] == rest[0]);
                }
                lemma_url_end(s, i + 1);
            }
            let url = s.subrange(i, j);
            seq![SInline::Link(spec_escape_url_parens(url), seq![SInline::Text(url)])]
                + spec_inlines_from(s, al, j)
        } else {
            let c = s[i];
            let wrapped = if c == '*' || c == '/' || c == '+' {
                spec_markup_at(s, i, c)
            } else {
                None
            };
            match wrapped {
                Some((inner, n)) => {
                    proof {
                        lemma_markup_end(s, c, i + 1);
                        lemma_dbl_sub(s, i + 1, i + n - 1);
                    }
                    let kids = spec_inlines_from(inner, al, 0);
                    let piece = if c == '*' {
                        SInline::Bold(kids)
                    } else if c == '/' {
                        SInline::Italic(kids)
                    } else {
                        SInline::StrikeThrough(kids)
                    };
                    seq![piece] + spec_inlines_from(s, al, i + n)
                },
                None => {
                    let code = if c == '=' || c == '~' {
                        spec_markup_at(s, i, c)
                    } else {
                        None
                    };
                    proof {
                        lemma_markup_end(s, c, i + 1);
                    }
                    match code {
                        Some((inner, n)) => {
                            let piece = if c == '=' {
                                SInline::Verbatim(inner)
                            } else {
                                SInline::Code(inner)
                            };
                            seq![piece] + spec_inlines_from(s, al, i + n)
                        },
                        None => seq![SInline::Text(seq![c])] + spec_inlines_from(s, al, i + 1),
                    }
                },
            }
        }
    }
}

/// The piece for the link at `start` (which holds `[[`) and the characters it takes.
fn parse_link_or_image(s: &[char], start: usize, al: &LinkAliases) -> (r: (Inline, usize))
    requires
        start + 1 < s@.len(),
        s@[start as int] == '[',
        s@[start + 1] == '[',
    ensures
        (r.0@, r.1 as int) == spec_link_inline(s@, al@, start as int),
        r.1 as int == link_parts(s@, start as int).2,
    decreases dbl(s@), s@.len(), 0int,
{
    let len = s.len();
    let tc = target_close_at(s, start + 2);
    proof {
        lemma_target_close(s@, start + 2, 1);
    }
    let e = match tc {
        Some(k) => k,
        None => len,
    };
    let target = slice(s, start + 2, e);
    let mut i: usize = match tc {
        Some(k) => k + 1,
        None => len,
    };
    let mut desc: Option<Vec<char>> = None;
    if i < len && s[i] == '[' {
        let dc = desc_close_at(s, i + 1);
        proof {
            lemma_desc_close(s@, i + 1);
        }
        match dc {
            Some(k) => {
                desc = Some(desc_escape_chars(s, i + 1, k));
                i = k + 2;
            },
            None => {
                desc = Some(desc_escape_chars(s, i + 1, len));
                i = len;
            },
        }
    } else if i < len && s[i] == ']' {
        i = i + 1;
    }
    let consumed = i - start;
    let ghost dv: Option<Seq<char>> = match &desc {
        Some(d) => Some(d@),
        None => None,
    };
    proof {
        lemma_link_parts(s@, start as int);
        lemma_dbl_pos(s@, start as int);
        lemma_dbl_sub(s@, start + 2, e as int);
        assert(link_parts(s@, start as int) == (target@, dv, consumed as int));
        if dv is Some {
            lemma_no_dbl_zero(dv->0);
        }
    }
    if starts_with_str(&target, "file:") {
        proof {
            reveal_strlit("file:");
            lemma_dbl_skip(target@, 5);
        }
        let path = slice(&target, 5, target.len());
        let enc = pct_encode_chars(&path);
        let shown = match desc {
            Some(d) => d,
            None => slice(&target, 5, target.len()),
        };
        if image_path(&path) {
            let img = Image { url: from_chars(&enc), alt_text: Some(from_chars(&shown)) };
            return (Inline::Image(img), consumed);
        } else {
            let kids = inline_list(&shown, al);
            let mut url = to_chars("file:");
            push_all(&mut url, &enc);
            return (Inline::Link(Link { url: from_chars(&url), text: kids }), consumed);
        }
    }
    match al.get(&target) {
        Some(url) => {
            let shown = match desc {
                Some(d) => d,
                None => slice(&target, 0, target.len()),
            };
            proof {
                assert(target@.subrange(0, target@.len() as int) =~= target@);
            }
            let kids = inline_list(&shown, al);
            let esc = escape_url_parens_chars(&url);
            (Inline::Link(Link { url: from_chars(&esc), text: kids }), consumed)
        },
        None => {
            let esc = escape_url_parens_chars(&target);
            match desc {
                Some(d) => {
                    let kids = inline_list(&d, al);
                    (Inline::Link(Link { url: from_chars(&esc), text: kids }), consumed)
                },
                None => {
                    let t = amp_escape_chars(&target);
                    let mut kids: Vec<Inline> = Vec::new();
                    kids.push(Inline::Text(from_chars(&t)));
                    proof {
                        lemma_inlines_view_push(Seq::<Inline>::empty(), kids@[0]);
                        assert(Seq::<Inline>::empty().push(kids@[0]) =~= kids@);
                    }
                    (Inline::Link(Link { url: from_chars(&esc), text: kids }), consumed)
                },
            }
        },
    }
}

/// The next piece of `s` from `i` and where the rest starts.
fn inline_piece(s: &[char], al: &LinkAliases, i: usize) -> (r: (Inline, usize))
    requires
        i < s@.len(),
    ensures
        i < r.1 <= s@.len(),
        spec_inlines_from(s@, al@, i as int) == seq![r.0@] + spec_inlines_from(s@, al@, r.1 as int),
    decreases dbl(s@), s@.len(), 1int,
{
    let len = s.len();
    if i + 1 < len && s[i] == '[' && s[i + 1] == '[' {
        let (piece, n) = parse_link_or_image(s, i, al);
        proof {
            lemma_link_parts(s@, i as int);
        }
        return (piece, i + n);
    }
    let http = to_chars("http://");
    let https = to_chars("https://");
    proof {
        lemma_prefix_at(s@, http@, i as int);
        lemma_prefix_at(s@, https@, i as int);
    }
    if matches_at(s, &http, i) || matches_at(s, &https, i) {
        let mut j: usize = i;
        proof {
            reveal_strlit("http://");
            reveal_strlit("https://");
            if occurs_at(s@, http@, i as int) {
                assert(s@.subrange(i as int, i + 7)[0] == s@[i as int]);
            } else {
                assert(s@.subrange(i as int, i + 8)[0] == s@[i as int]);
            }
        }
        while j < len && !is_whitespace(s[j])
            invariant
                i <= j <= len == s@.len(),
                url_end(s@, i as int) == url_end(s@, j as int),
            decreases len - j,
        {
            j += 1;
        }
        let url = slice(s, i, j);
        let esc = escape_url_parens_chars(&url);
        let mut kids: Vec<Inline> = Vec::new();
        kids.push(Inline::Text(from_chars(&url)));
        proof {
            lemma_inlines_view_push(Seq::<Inline>::empty(), kids@[0]);
            assert(Seq::<Inline>::empty().push(kids@[0]) =~= kids@);
        }
        return (Inline::Link(Link { url: from_chars(&esc), text: kids }), j);
    }
    let c = s[i];
    proof {
        lemma_markup_end(s@, c, i + 1);
    }
    if c == '*' || c == '/' || c == '+' {
        match markup_at(s, i, c) {
            Some((inner, n)) => {
                proof {
                    lemma_dbl_sub(s@, i + 1, i + n - 1);
                }
                let kids = inline_list(&inner, al);
                let piece = if c == '*' {
                    Inline::Bold(kids)
                } else if c == '/' {
                    Inline::Italic(kids)
                } else {
                    Inline::StrikeThrough(kids)
                };
                return (piece, i + n);
            },
            None => {},
        }
    }
    if c == '=' || c == '~' {
        match markup_at(s, i, c) {
            Some((inner, n)) => {
                let v = from_chars(&inner);
                let piece = if c == '=' {
                    Inline::Verbatim(v)
                } else {
                    Inline::Code(v)
                };
                return (piece, i + n);
            },
            None => {},
        }
    }
    let mut one: Vec<char> = Vec::new();
    one.push(c);
    assert(one@ =~= seq![c]);
    (Inline::Text(from_chars(&one)), i + 1)
}

/// The inline pieces of `s`.
fn inline_list(s: &[char], al: &LinkAliases) -> (r: Vec<Inline>)
    ensures
        inlines_view(r@) == spec_inlines_from(s@, al@, 0),
    decreases dbl(s@), s@.len(), 2int,
{
    let mut result: Vec<Inline> = Vec::new();
    let mut i: usize = 0;
    assert(inlines_view(result@) =~= Seq::<SInline>::empty());
    assert(spec_inlines_from(s@, al@, 0) =~= inlines_view(result@) + spec_inlines_from(s@, al@, 0));
    while i < s.len()
        invariant
            i <= s@.len(),
            spec_inlines_from(s@, al@, 0) == inlines_view(result@) + spec_inlines_from(s@, al@, i as int),
        decreases s.len() - i,
    {
        let (piece, next) = inline_piece(s, al, i);
        let ghost before = inlines_view(result@);
        let ghost pv = piece@;
        proof {
            lemma_inlines_view_push(result@, piece);
        }
        result.push(piece);
        proof {
            assert(before.push(pv) + spec_inlines_from(s@, al@, next as int) =~= before + (seq![pv]
                + spec_inlines_from(s@, al@, next as int)));
        }
        i = next;
    }
    assert(inlines_view(result@) + spec_inlines_from(s@, al@, i as int) =~= inlines_view(result@));
    result
}

/// Reads the Org inline markup of `text` into pieces, resolving `[[...]]` links
/// through `link_aliases`.
pub fn parse_inline(text: &str, link_aliases: &LinkAliases) -> (r: Vec<Inline>)
    ensures
        inlines_view(r@) == spec_inlines_from(text@, link_aliases@, 0),
{
    let chars = to_chars(text);
    inline_list(&chars, link_aliases)
}

} // verus!
