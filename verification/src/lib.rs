//! Conversion between Org and MDX documents through one syntax tree.
use vstd::prelude::*;

pub mod ast;
pub mod block;
pub mod converter;
pub mod error;
pub mod frontmatter;
pub mod inline;
pub mod inline_parser;
pub mod list;
pub mod mdx_to_ast;
pub mod mdx_to_org;
pub mod org_to_ast;
pub mod org_to_mdx;
pub mod paragraph;
pub mod parser;
pub mod render;
pub mod renderer;
pub mod text;
pub mod util;
