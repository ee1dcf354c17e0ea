//! Parsers from Org and MDX text into the syntax tree.
pub mod jsx;
pub mod org;
pub mod inline;
pub mod mdx;
