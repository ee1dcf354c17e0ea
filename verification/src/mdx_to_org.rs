//! MDX to Org.
use vstd::prelude::*;
use crate::error::Error;
use crate::parser::mdx::yaml::frontmatter_dates_ok;
use crate::parser::mdx::{mdx_readable, parse_mdx, spec_parse_mdx, try_parse_mdx};
use crate::renderer::org_renderer::{law_org_inline_forms, org_inline, org_inline_seq, render_org, spec_render_org, try_render_org};
use crate::parser::mdx::{md_inline, md_inline_seq, SMd};

verus! {

/// The Org text an MDX document converts to; an error carries the Markdown reader's
/// message; `None` where reading or writing HTML never ends.
pub open spec fn spec_mdx_to_org(input: Seq<char>) -> Option<Result<Seq<char>, Seq<char>>> {
    match spec_parse_mdx(input) {
        None => None,
        Some(Err(m)) => Some(Err(m)),
        Some(Ok(n)) => match spec_render_org(n) {
            Some(s) => Some(Ok(s)),
            None => None,
        },
    }
}

/// The inputs `convert` takes.
pub open spec fn mdx_to_org_ok(input: Seq<char>) -> bool {
    frontmatter_dates_ok(input) && spec_mdx_to_org(input) is Some
}

/// Converts an MDX document to Org.
pub fn convert(input: &str) -> (r: Result<String, Error>)
    requires
        mdx_to_org_ok(input@),
    ensures
        match r {
            Ok(s) => spec_mdx_to_org(input@) == Some(Ok::<Seq<char>, Seq<char>>(s@)),
            Err(e) => e matches Error::InvalidInput(m) && spec_mdx_to_org(input@) == Some(
                Err::<Seq<char>, Seq<char>>(m@),
            ),
        },
{
    match parse_mdx(input) {
        Ok(root) => Ok(render_org(&root)),
        Err(e) => Err(e),
    }
}

/// As `convert`; `None` exactly on the inputs `convert` does not take.
pub fn try_convert(input: &str) -> (r: Option<Result<String, Error>>)
    ensures
        match r {
            None => !mdx_to_org_ok(input@),
            Some(x) => mdx_to_org_ok(input@) && match x {
                Ok(s) => spec_mdx_to_org(input@) == Some(Ok::<Seq<char>, Seq<char>>(s@)),
                Err(e) => e matches Error::InvalidInput(m) && spec_mdx_to_org(input@) == Some(
                    Err::<Seq<char>, Seq<char>>(m@),
                ),
            },
        },
{
    match try_parse_mdx(input) {
        None => None,
        Some(Err(_)) => Some(convert(input)),
        Some(Ok(root)) => match try_render_org(&root) {
            Some(_) => Some(convert(input)),
            None => None,
        },
    }
}


/// Inline markup keeps its meaning from MDX to Org: Markdown strong text becomes Org
/// `*…*`, emphasis `/…/`, strike-through `+…+`, and a link `[[url][text]]` with the
/// link's own URL and text.
pub proof fn law_mdx_inline_to_org(c: Seq<SMd>, u: Seq<char>)
    ensures
        md_inline_seq(c) matches Some(k) ==> {
            &&& md_inline(SMd::Strong(c)) matches Some(ns) && ns.len() == 1
                && org_inline(ns[0]) == "*"@ + org_inline_seq(k) + "*"@
            &&& md_inline(SMd::Emphasis(c)) matches Some(ns) && ns.len() == 1
                && org_inline(ns[0]) == "/"@ + org_inline_seq(k) + "/"@
            &&& md_inline(SMd::Delete(c)) matches Some(ns) && ns.len() == 1
                && org_inline(ns[0]) == "+"@ + org_inline_seq(k) + "+"@
            &&& md_inline(SMd::Link(u, c)) matches Some(ns) && ns.len() == 1
                && org_inline(ns[0]) == "[["@ + u + "]["@ + org_inline_seq(k) + "]]"@
        },
{
    if let Some(k) = md_inline_seq(c) {
        law_org_inline_forms(k, Seq::empty(), u, Seq::empty());
    }
}

} // verus!
