//! The Markdown tree of an MDX body, read by the `markdown` crate and brought over into
//! the library's own nodes.
use vstd::prelude::*;
use markdown::mdast::Node as M;
use super::{MdNode, SMd};

verus! {

#[verifier::external_type_specification]
#[verifier::external_body]
pub struct ExMdastNode(markdown::mdast::Node);

/// What `markdown::to_mdast` with the default options reads from `body`: the tree, or
/// the text of the message it reports.
pub uninterp spec fn mdast_of(body: Seq<char>) -> Result<SMd, Seq<char>>;

/// Calls `markdown::to_mdast` with the default parse options and brings the tree over
/// node by node; an error becomes the text of its message. What it reads is named, not
/// stated.
#[verifier::external_body]
pub(crate) fn markdown_tree(body: &str) -> (r: Result<MdNode, String>)
    ensures
        match r {
            Ok(t) => mdast_of(body@) == Ok::<SMd, Seq<char>>(t@),
            Err(m) => mdast_of(body@) == Err::<SMd, Seq<char>>(m@),
        },
{
    match markdown::to_mdast(body, &markdown::ParseOptions::default()) {
        Ok(n) => Ok(block_of(&n)),
        Err(e) => Err(e.to_string()),
    }
}

/// The copy `markdown_tree` makes of a block node (other nodes go to `inline_of`).
#[verifier::external_body]
fn block_of(n: &M) -> MdNode {
    match n {
        M::Root(r) => MdNode::Root(all_of(&r.children)),
        M::Heading(h) => MdNode::Heading(h.depth, all_of(&h.children)),
        M::Paragraph(p) => MdNode::Paragraph(all_of(&p.children)),
        M::List(l) => MdNode::List(l.ordered, all_of(&l.children)),
        M::ListItem(i) => MdNode::ListItem(all_of(&i.children)),
        M::Blockquote(b) => MdNode::Blockquote(all_of(&b.children)),
        _ => leaf_of(n),
    }
}

/// The copy `markdown_tree` makes of a block node without children (other nodes go to
/// `inline_of`).
#[verifier::external_body]
fn leaf_of(n: &M) -> MdNode {
    match n {
        M::Code(c) => MdNode::Code(c.value.clone(), c.lang.clone()),
        M::ThematicBreak(_) => MdNode::ThematicBreak,
        M::Html(h) => MdNode::Html(h.value.clone()),
        M::MdxFlowExpression(e) => MdNode::FlowExpression(e.value.clone()),
        _ => inline_of(n),
    }
}

/// The copy `markdown_tree` makes of an inline node; kinds the library does not read
/// become `Other`.
#[verifier::external_body]
fn inline_of(n: &M) -> MdNode {
    match n {
        M::Text(t) => MdNode::Text(t.value.clone()),
        M::Strong(s) => MdNode::Strong(all_of(&s.children)),
        M::Emphasis(e) => MdNode::Emphasis(all_of(&e.children)),
        M::Delete(d) => MdNode::Delete(all_of(&d.children)),
        M::InlineCode(c) => MdNode::InlineCode(c.value.clone()),
        M::Link(l) => MdNode::Link(l.url.clone(), all_of(&l.children)),
        M::Image(i) => MdNode::Image(i.url.clone(), i.alt.clone()),
        M::Break(_) => MdNode::Break,
        M::MdxTextExpression(e) => MdNode::TextExpression(e.value.clone()),
        _ => MdNode::Other,
    }
}

/// The copies `markdown_tree` makes of a list of children.
#[verifier::external_body]
fn all_of(ns: &Vec<M>) -> Vec<MdNode> {
    ns.iter().map(block_of).collect()
}

} // verus!
