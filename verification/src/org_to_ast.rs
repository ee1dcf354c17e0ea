//! Org to the syntax tree. As for `org_to_mdx`, `#+INCLUDE:` directives are resolved before.
use vstd::prelude::*;
use crate::ast::node::AstNode;
use crate::error::Error;
use crate::parser::org::{parse_org, spec_parse_org};

verus! {

/// Parses an Org document into its syntax tree.
pub fn parse(input: &str) -> (r: Result<AstNode, Error>)
    requires
        spec_parse_org(input@) is Some,
    ensures
        r matches Ok(n) && spec_parse_org(input@) == Some(n@),
{
    parse_org(input)
}

} // verus!
