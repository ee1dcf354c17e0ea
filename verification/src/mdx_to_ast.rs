//! MDX to the syntax tree.
use vstd::prelude::*;
use crate::ast::node::AstNode;
use crate::error::Error;
use crate::parser::mdx::{mdx_readable, parse_mdx, spec_parse_mdx, try_parse_mdx};

verus! {

/// Parses an MDX document into its syntax tree.
pub fn parse(input: &str) -> (r: Result<AstNode, Error>)
    requires
        mdx_readable(input@),
    ensures
        match r {
            Ok(n) => spec_parse_mdx(input@) == Some(Ok::<crate::ast::node::SNode, Seq<char>>(n@)),
            Err(e) => e matches Error::InvalidInput(m) && spec_parse_mdx(input@) == Some(
                Err::<crate::ast::node::SNode, Seq<char>>(m@),
            ),
        },
{
    parse_mdx(input)
}

/// As `parse`; `None` exactly on the inputs `parse` does not take.
pub fn try_parse(input: &str) -> (r: Option<Result<AstNode, Error>>)
    ensures
        match r {
            None => !mdx_readable(input@),
            Some(x) => mdx_readable(input@) && match x {
                Ok(n) => spec_parse_mdx(input@) == Some(Ok::<crate::ast::node::SNode, Seq<char>>(n@)),
                Err(e) => e matches Error::InvalidInput(m) && spec_parse_mdx(input@) == Some(
                    Err::<crate::ast::node::SNode, Seq<char>>(m@),
                ),
            },
        },
{
    match try_parse_mdx(input) {
        None => None,
        Some(_) => Some(parse(input)),
    }
}

} // verus!
