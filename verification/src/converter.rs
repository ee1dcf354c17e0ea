//! The state of a direct Org-to-Markdown writer: the document's lines, where it is in
//! them, the link abbreviations and the front matter gathered from keyword lines.
use vstd::prelude::*;
use crate::frontmatter::{fm_push, fm_set, FrontmatterBuilder, SFm, strings_view};
use crate::inline::{convert_inline, spec_convert_from};
use crate::parser::inline::{alias_insert, LinkAliases};
use crate::parser::org::directive::with_link;
use crate::text::{
    from_chars, lines, lines_of, slice, split, split_chars, to_chars, trim, trim_chars, views,
    word_end,
};
use crate::util::{kw_chars, org_date_to_iso_chars, spec_kw, spec_org_date_to_iso};

verus! {

/// Reads an Org document line by line into Markdown.
pub struct OrgConverter {
    pub(crate) lines: Vec<Vec<char>>,
    pub(crate) pos: usize,
    pub(crate) link_aliases: LinkAliases,
    pub(crate) frontmatter: FrontmatterBuilder,
}

/// The tags of a `#+TAGS:` value: its comma-separated parts, trimmed, without empty ones.
pub open spec fn tag_strings(parts: Seq<Seq<char>>) -> Seq<Seq<char>>
    decreases parts.len(),
{
    if parts.len() == 0 {
        Seq::empty()
    } else {
        let rest = tag_strings(parts.drop_last());
        let t = trim(parts.last());
        if t.len() == 0 {
            rest
        } else {
            rest.push(t)
        }
    }
}

/// What one line contributes to the front matter and the link abbreviations; the
/// keyword is looked for in the line as it stands.
pub open spec fn spec_convert_directive(
    fm: Seq<(Seq<char>, SFm)>,
    al: Seq<(Seq<char>, Seq<char>)>,
    line: Seq<char>,
) -> (Seq<(Seq<char>, SFm)>, Seq<(Seq<char>, Seq<char>)>) {
    if spec_kw(line, "TITLE"@) is Some {
        (fm_set(fm, "title"@, SFm::Str(spec_kw(line, "TITLE"@)->0)), al)
    } else if spec_kw(line, "DATE"@) is Some {
        (match spec_org_date_to_iso(spec_kw(line, "DATE"@)->0) {
            Some(iso) => fm_set(fm, "date"@, SFm::Str(iso)),
            None => fm,
        }, al)
    } else if spec_kw(line, "UPDATED"@) is Some {
        (match spec_org_date_to_iso(spec_kw(line, "UPDATED"@)->0) {
            Some(iso) => fm_set(fm, "updated"@, SFm::Str(iso)),
            None => fm,
        }, al)
    } else if spec_kw(line, "ABBRLINK"@) is Some {
        (fm_set(fm, "abbrlink"@, SFm::Str(spec_kw(line, "ABBRLINK"@)->0)), al)
    } else if spec_kw(line, "TAGS"@) is Some {
        (fm_set(fm, "tags"@, SFm::List(tag_strings(split(spec_kw(line, "TAGS"@)->0, ',')))), al)
    } else if spec_kw(line, "CATEGORY"@) is Some {
        (fm_set(fm, "category"@, SFm::List(seq![spec_kw(line, "CATEGORY"@)->0])), al)
    } else if spec_kw(line, "AUTHOR"@) is Some {
        (fm_set(fm, "author"@, SFm::Str(spec_kw(line, "AUTHOR"@)->0)), al)
    } else if spec_kw(line, "EMAIL"@) is Some {
        (fm_set(fm, "author_email"@, SFm::Str(spec_kw(line, "EMAIL"@)->0)), al)
    } else if spec_kw(line, "ALIAS"@) is Some {
        (fm_push(fm, "alias"@, spec_kw(line, "ALIAS"@)->0), al)
    } else if spec_kw(line, "LANGUAGE"@) is Some {
        (fm_set(fm, "language"@, SFm::Str(spec_kw(line, "LANGUAGE"@)->0)), al)
    } else if spec_kw(line, "ATTR_HTML"@) is Some {
        (fm_set(fm, "attr_html"@, SFm::Str(spec_kw(line, "ATTR_HTML"@)->0)), al)
    } else if spec_kw(line, "LINK"@) is Some {
        (fm, with_link(al, spec_kw(line, "LINK"@)->0))
    } else {
        (fm, al)
    }
}

fn keyword(line: &[char], k: &str) -> (r: Option<Vec<char>>)
    ensures
        match r {
            Some(v) => spec_kw(line@, k@) == Some(v@),
            None => spec_kw(line@, k@) is None,
        },
{
    kw_chars(line, &to_chars(k))
}

/// The tags of a `#+TAGS:` value.
fn tags_of(v: &[char]) -> (r: Vec<String>)
    ensures
        strings_view(r@) == tag_strings(split(v@, ',')),
{
    let parts = split_chars(v, ',');
    let ghost pv = views(parts@);
    let mut out: Vec<String> = Vec::new();
    let mut i: usize = 0;
    while i < parts.len()
        invariant
            pv == views(parts@),
            pv == split(v@, ','),
            pv.len() == parts@.len(),
            forall|j: int| 0 <= j < parts@.len() ==> #[trigger] pv[j] == parts@[j]@,
            i <= parts@.len(),
            strings_view(out@) == tag_strings(pv.take(i as int)),
        decreases parts.len() - i,
    {
        assert(pv.take(i + 1).drop_last() =~= pv.take(i as int));
        let t = trim_chars(&parts[i]);
        if t.len() > 0 {
            let s = from_chars(&t);
            let ghost before = out@;
            out.push(s);
            assert(strings_view(out@) =~= strings_view(before).push(t@));
        }
        i += 1;
    }
    assert(pv.take(parts@.len() as int) =~= pv);
    out
}

impl OrgConverter {
    /// The lines of the document.
    pub closed spec fn source(&self) -> Seq<Seq<char>> {
        views(self.lines@)
    }

    /// The index of the line the writer stands at.
    pub closed spec fn at(&self) -> int {
        self.pos as int
    }

    /// The link abbreviations read so far.
    pub closed spec fn aliases(&self) -> Seq<(Seq<char>, Seq<char>)> {
        self.link_aliases@
    }

    /// The front matter gathered so far.
    pub closed spec fn front(&self) -> Seq<(Seq<char>, SFm)> {
        self.frontmatter@
    }

    /// The accessors above, unfolded for the rest of the crate.
    pub(crate) proof fn lemma_state(&self)
        ensures
            self.source() == views(self.lines@),
            self.at() == self.pos as int,
            self.aliases() == self.link_aliases@,
            self.front() == self.frontmatter@,
    {
    }

    /// A writer standing at the first line of `input`, with nothing gathered yet.
    pub fn new(input: &str) -> (r: OrgConverter)
        ensures
            r.source() == lines(input@),
            r.at() == 0,
            r.aliases() == Seq::<(Seq<char>, Seq<char>)>::empty(),
            r.front() == Seq::<(Seq<char>, SFm)>::empty(),
    {
        OrgConverter {
            lines: lines_of(&to_chars(input)),
            pos: 0,
            link_aliases: LinkAliases::new(),
            frontmatter: FrontmatterBuilder::new(),
        }
    }

    /// The line the writer stands at, if any.
    pub(crate) fn peek(&self) -> (r: Option<&Vec<char>>)
        ensures
            self.at() < self.source().len() ==> (r matches Some(l) && l@ == self.source()[self.at()]),
            self.at() >= self.source().len() ==> r is None,
    {
        proof {
            self.lemma_state();
        }
        if self.pos < self.lines.len() {
            Some(&self.lines[self.pos])
        } else {
            None
        }
    }

    /// Moves to the next line, if there is one.
    pub(crate) fn advance(&mut self)
        ensures
            final(self).lines == old(self).lines,
            final(self).link_aliases == old(self).link_aliases,
            final(self).frontmatter == old(self).frontmatter,
            final(self).source() == old(self).source(),
            final(self).aliases() == old(self).aliases(),
            final(self).front() == old(self).front(),
            final(self).at() == if old(self).at() < old(self).source().len() {
                old(self).at() + 1
            } else {
                old(self).at()
            },
    {
        proof {
            self.lemma_state();
        }
        if self.pos < self.lines.len() {
            self.pos = self.pos + 1;
        }
        proof {
            self.lemma_state();
        }
    }

    /// Reads the keyword of one line into the front matter and the link abbreviations.
    pub fn process_directive_line(&mut self, line: &str)
        ensures
            final(self).source() == old(self).source(),
            final(self).at() == old(self).at(),
            (final(self).front(), final(self).aliases()) == spec_convert_directive(
                old(self).front(),
                old(self).aliases(),
                line@,
            ),
    {
        let l = to_chars(line);
        if let Some(v) = keyword(&l, "TITLE") {
            self.frontmatter.set_str("title", from_chars(&v));
        } else if let Some(v) = keyword(&l, "DATE") {
            if let Some(iso) = org_date_to_iso_chars(&v) {
                self.frontmatter.set_str("date", from_chars(&iso));
            }
        } else if let Some(v) = keyword(&l, "UPDATED") {
            if let Some(iso) = org_date_to_iso_chars(&v) {
                self.frontmatter.set_str("updated", from_chars(&iso));
            }
        } else if let Some(v) = keyword(&l, "ABBRLINK") {
            self.frontmatter.set_str("abbrlink", from_chars(&v));
        } else if let Some(v) = keyword(&l, "TAGS") {
            self.frontmatter.set_list("tags", tags_of(&v));
        } else if let Some(v) = keyword(&l, "CATEGORY") {
            let mut c: Vec<String> = Vec::new();
            c.push(from_chars(&v));
            assert(strings_view(c@) =~= seq![v@]);
            self.frontmatter.set_list("category", c);
        } else if let Some(v) = keyword(&l, "AUTHOR") {
            self.frontmatter.set_str("author", from_chars(&v));
        } else if let Some(v) = keyword(&l, "EMAIL") {
            self.frontmatter.set_str("author_email", from_chars(&v));
        } else if let Some(v) = keyword(&l, "ALIAS") {
            self.frontmatter.push_list("alias", from_chars(&v));
        } else if let Some(v) = keyword(&l, "LANGUAGE") {
            self.frontmatter.set_str("language", from_chars(&v));
        } else if let Some(v) = keyword(&l, "ATTR_HTML") {
            self.frontmatter.set_str("attr_html", from_chars(&v));
        } else if let Some(v) = keyword(&l, "LINK") {
            let mut sp: usize = 0;
            proof {
                crate::text::lemma_word_end(v@, 0);
            }
            while sp < v.len() && !crate::text::is_whitespace(v[sp])
                invariant
                    sp <= v@.len(),
                    word_end(v@, 0) == word_end(v@, sp as int),
                decreases v.len() - sp,
            {
                sp += 1;
            }
            if sp < v.len() {
                let name = trim_chars(&slice(&v, 0, sp));
                let url = trim_chars(&slice(&v, sp, v.len()));
                self.link_aliases.insert(&name, &url);
            }
        }
    }

    /// The Markdown of the inline markup of `text`, with this document's abbreviations.
    pub fn inline(&self, text: &str) -> (r: String)
        ensures
            r@ == spec_convert_from(text@, self.aliases(), 0),
    {
        convert_inline(text, &self.link_aliases)
    }
}

} // verus!
