//! Org to MDX. The text handed in is converted as it stands: `#+INCLUDE:` directives are
//! resolved before (reading the included files is left to the caller).
use vstd::prelude::*;
use crate::error::Error;
use crate::parser::org::{parse_org, spec_parse_org, try_parse_org};
use crate::renderer::mdx_renderer::{law_mdx_inline_forms, md_inline, md_inline_seq, render_mdx, spec_render_mdx};
use crate::parser::inline::{law_org_markup_kinds, spec_parse_inline};

verus! {

/// The MDX an Org document converts to; `None` where the Org reader cannot take it.
pub open spec fn spec_org_to_mdx(input: Seq<char>) -> Option<Seq<char>> {
    match spec_parse_org(input) {
        Some(root) => Some(spec_render_mdx(root)),
        None => None,
    }
}

/// Converts an Org document to MDX.
pub fn convert(input: &str) -> (r: Result<String, Error>)
    requires
        spec_org_to_mdx(input@) is Some,
    ensures
        r matches Ok(s) && spec_org_to_mdx(input@) == Some(s@),
{
    match parse_org(input) {
        Ok(root) => Ok(render_mdx(&root)),
        Err(e) => Err(e),
    }
}

/// Converts an Org document to MDX; `None` exactly where the Org reader cannot take it.
pub fn try_convert(input: &str) -> (r: Option<String>)
    ensures
        match r {
            Some(s) => spec_org_to_mdx(input@) == Some(s@),
            None => spec_org_to_mdx(input@) is None,
        },
{
    match try_parse_org(input) {
        Some(root) => Some(render_mdx(&root)),
        None => None,
    }
}


/// Inline markup keeps its meaning from Org to MDX: Org `*…*` becomes Markdown `**…**`,
/// `/…/` becomes `*…*` and `+…+` becomes `~~…~~`, around the text inside converted in
/// turn.
pub proof fn law_org_inline_to_mdx(w: Seq<char>, al: Seq<(Seq<char>, Seq<char>)>, c: char)
    requires
        c == '*' || c == '/' || c == '+',
        forall|i: int| 0 <= i < w.len() ==> #[trigger] w[i] != c,
    ensures
        ({
            let ns = spec_parse_inline(seq![c] + w + seq![c], al);
            let inner = md_inline_seq(spec_parse_inline(w, al));
            &&& ns.len() == 1
            &&& c == '*' ==> md_inline(ns[0]) == "**"@ + inner + "**"@
            &&& c == '/' ==> md_inline(ns[0]) == "*"@ + inner + "*"@
            &&& c == '+' ==> md_inline(ns[0]) == "~~"@ + inner + "~~"@
        }),
{
    law_org_markup_kinds(w, al, c);
    law_mdx_inline_forms(spec_parse_inline(w, al), Seq::empty(), Seq::empty(), Seq::empty());
}

} // verus!
