//! Reading one paragraph of body text into Markdown.
use vstd::prelude::*;
use crate::converter::OrgConverter;
use crate::inline::spec_convert_from;
use crate::list::{is_ordered_item, is_unordered_item, spec_is_ordered_item, spec_is_unordered_item};
use crate::parser::org::heading::{heading_refused, is_refused_heading, parse_heading_chars, spec_parse_heading};
use crate::parser::org::{any_break, para_part, para_part_of};
use crate::text::{from_chars, has_prefix, join, join_str, lemma_views_push, starts_with_str, trim, trim_chars, views};
use crate::util::{collapse_spaces_chars, spec_collapse_spaces};

verus! {

/// Something that reads a paragraph from where it stands.
pub trait ParagraphParser {
    /// Whether a paragraph can be read from here.
    spec fn paragraph_readable(&self) -> bool;

    /// Reads the paragraph that starts here: its Markdown, and whether a line of it
    /// ended with a hard line break.
    fn collect_paragraph(&mut self) -> (r: (String, bool))
        requires
            old(self).paragraph_readable(),
    ;
}

/// The end of the paragraph whose lines continue at `p`: a blank line, a keyword line,
/// a heading or a list item ends it; `None` where a heading on the way is one the heading
/// reader refuses.
pub open spec fn conv_para_end(ls: Seq<Seq<char>>, p: int) -> Option<int>
    decreases ls.len() - p,
{
    if p < 0 || p >= ls.len() {
        Some(p)
    } else {
        let l = ls[p];
        let t = trim(l);
        if t.len() == 0 || has_prefix(t, "#+"@) || has_prefix(t, "#-"@) {
            Some(p)
        } else if heading_refused(l) {
            None
        } else if spec_parse_heading(l) is Some || spec_is_unordered_item(l) || spec_is_ordered_item(l) {
            Some(p)
        } else {
            conv_para_end(ls, p + 1)
        }
    }
}

pub proof fn lemma_conv_para_end(ls: Seq<Seq<char>>, p: int)
    requires
        0 <= p,
    ensures
        conv_para_end(ls, p) matches Some(q) ==> p <= q && (p <= ls.len() ==> q <= ls.len()),
    decreases ls.len() - p,
{
    if p < ls.len() {
        lemma_conv_para_end(ls, p + 1);
    }
}

/// The Markdown of the paragraph made of the lines `seg`, and whether one of them ends
/// with `\\`: the lines are trimmed, joined with spaces, runs of spaces collapsed, and
/// the inline markup converted.
pub open spec fn conv_paragraph(seg: Seq<Seq<char>>, al: Seq<(Seq<char>, Seq<char>)>) -> (Seq<char>, bool) {
    if seg.len() == 0 {
        (Seq::empty(), false)
    } else {
        let parts = seg.map_values(|l: Seq<char>| para_part(l).0);
        (spec_convert_from(spec_collapse_spaces(join(parts, " "@)), al, 0), any_break(seg))
    }
}

/// How a line stands in a paragraph: 0 continues it, 1 ends it, 2 stops the reader.
fn line_kind(l: &[char]) -> (r: u8)
    ensures
        r <= 2,
        (r == 0) == (!(trim(l@).len() == 0 || has_prefix(trim(l@), "#+"@) || has_prefix(trim(l@), "#-"@))
            && !heading_refused(l@) && !(spec_parse_heading(l@) is Some || spec_is_unordered_item(l@)
            || spec_is_ordered_item(l@))),
        (r == 2) == (!(trim(l@).len() == 0 || has_prefix(trim(l@), "#+"@) || has_prefix(trim(l@), "#-"@))
            && heading_refused(l@)),
{
    let t = trim_chars(l);
    if t.len() == 0 || starts_with_str(&t, "#+") || starts_with_str(&t, "#-") {
        return 1;
    }
    if is_refused_heading(l) {
        return 2;
    }
    let s = from_chars(l);
    if parse_heading_chars(l).is_some() || is_unordered_item(s.as_str()) || is_ordered_item(s.as_str()) {
        return 1;
    }
    0
}

impl ParagraphParser for OrgConverter {
    open spec fn paragraph_readable(&self) -> bool {
        self.at() <= self.source().len() && conv_para_end(self.source(), self.at()) is Some
    }

    fn collect_paragraph(&mut self) -> (r: (String, bool))
        ensures
            final(self).source() == old(self).source(),
            final(self).aliases() == old(self).aliases(),
            final(self).front() == old(self).front(),
            conv_para_end(old(self).source(), old(self).at()) == Some(final(self).at()),
            (r.0@, r.1) == conv_paragraph(
                old(self).source().subrange(old(self).at(), final(self).at()),
                old(self).aliases(),
            ),
    {
        proof {
            self.lemma_state();
        }
        let ghost ls = views(self.lines@);
        let p0 = self.pos;
        proof {
            lemma_conv_para_end(ls, p0 as int);
        }
        let mut parts: Vec<Vec<char>> = Vec::new();
        let mut had_lb = false;
        while self.pos < self.lines.len() && line_kind(self.peek().unwrap()) == 0
            invariant
                ls == views(self.lines@),
                self.lines@ == old(self).lines@,
                self.link_aliases@ == old(self).link_aliases@,
                self.frontmatter@ == old(self).frontmatter@,
                p0 <= self.pos <= self.lines@.len(),
                p0 == old(self).pos,
                self.at() == self.pos as int,
                self.source() == ls,
                conv_para_end(ls, p0 as int) == conv_para_end(ls, self.pos as int),
                views(parts@) == ls.subrange(p0 as int, self.pos as int).map_values(|l: Seq<char>| para_part(l).0),
                had_lb == any_break(ls.subrange(p0 as int, self.pos as int)),
            decreases self.lines@.len() - self.pos,
        {
            let p = self.pos;
            let (text, lb) = para_part_of(&self.lines[p]);
            proof {
                lemma_views_push(parts@, text);
                assert(ls.subrange(p0 as int, p + 1).drop_last() =~= ls.subrange(p0 as int, p as int));
            }
            parts.push(text);
            had_lb = had_lb || lb;
            proof {
                self.lemma_state();
            }
            self.advance();
            proof {
                self.lemma_state();
            }
            assert(views(parts@) =~= ls.subrange(p0 as int, self.pos as int).map_values(
                |l: Seq<char>| para_part(l).0,
            ));
        }
        if self.pos < self.lines.len() {
            let k = line_kind(&self.lines[self.pos]);
            assert(k != 2);
        }
        proof {
            self.lemma_state();
        }
        if parts.len() == 0 {
            return (from_chars(&Vec::new()), false);
        }
        let joined = join_str(&parts, " ");
        let normalized = from_chars(&collapse_spaces_chars(&joined));
        assert(views(parts@).len() == parts@.len());
        (self.inline(normalized.as_str()), had_lb)
    }
}

} // verus!
