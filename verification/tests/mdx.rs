use org2mdx::ast::node::{DataEntry, DataValue};
use org2mdx::parser::mdx::{build_mdx_root, extract_export_blocks, merge_exports, split_frontmatter, MdNode};
use org2mdx::ast::node::AstNode;
use org2mdx::renderer::org_renderer::try_render_org;

#[test]
fn export_blocks_set_aside() {
    let (body, ex) = extract_export_blocks("a\n{/* #+begin_export html */}\n<b>x</b>\n{/* #+end_export */}\nb");
    assert_eq!(body, "a\nEXPORTBLOCKPLACEHOLDER0\nb");
    assert_eq!(ex.len(), 1);
    assert_eq!(ex[0].export_type, "html");
    assert_eq!(ex[0].content, "<b>x</b>");
    assert!(ex[0].exports.is_none());

    let (body, ex) = extract_export_blocks("{/* #+begin_example */}\n```\ncode\n```\n{/* #+end_example */}");
    assert_eq!(body, "EXPORTBLOCKPLACEHOLDER0");
    assert_eq!(ex[0].export_type, "EXAMPLE");
    assert_eq!(ex[0].content, "code");
}

#[test]
fn placeholders_merged_back() {
    let (_, ex) = extract_export_blocks("{/* #+begin_export html */}\n<b>x</b>\n{/* #+end_export */}");
    let para = AstNode::new("paragraph").with_children(vec![AstNode::text("EXPORTBLOCKPLACEHOLDER0")]);
    let other = AstNode::new("paragraph").with_children(vec![AstNode::text("keep")]);
    let merged = merge_exports(vec![para, other], &ex);
    assert_eq!(merged.len(), 2);
    assert_eq!(merged[0].node_type, "export");
    assert_eq!(merged[0].value.as_deref(), Some("<b>x</b>"));
    assert_eq!(merged[0].get_data_str("lang"), Some("html"));
    assert_eq!(merged[1].node_type, "paragraph");
}

#[test]
fn front_matter_split() {
    let s = split_frontmatter("  ---\ntitle: x\n---\nbody");
    assert_eq!(s.trimmed, "---\ntitle: x\n---\nbody");
    assert_eq!(s.yaml, Some(("title: x".to_string(), "\nbody".to_string())));
    let s = split_frontmatter("no front matter");
    assert!(s.yaml.is_none());
}

#[test]
fn mdx_tree_to_org() {
    let tree = MdNode::Root(vec![
        MdNode::Heading(2, vec![MdNode::Text("Hi".to_string())]),
        MdNode::Paragraph(vec![
            MdNode::Text("a ".to_string()),
            MdNode::Strong(vec![MdNode::Text("b".to_string())]),
        ]),
    ]);
    let fm = vec![DataEntry { key: "title".to_string(), value: DataValue::Str("T".to_string()) }];
    let root = build_mdx_root(fm, &tree, &Vec::new()).unwrap();
    assert_eq!(root.get_data_str("title"), Some("T"));
    let org = try_render_org(&root).unwrap();
    assert_eq!(org, "#+TITLE: T\n#+OPTIONS: num:nil ^:nil\n\n** Hi\n\na *b*\n");
}

#[test]
fn mdx_document_to_org() {
    let input = "---\ntitle: T\n---\n## Hi\n\na **b**\n";
    let org = org2mdx::mdx_to_org::try_convert(input).unwrap().unwrap();
    assert_eq!(org, "#+TITLE: T\n#+OPTIONS: num:nil ^:nil\n\n** Hi\n\na *b*\n");
}

#[test]
fn mdx_document_to_tree() {
    let input = "---\ntitle: T\n---\n# One\n\ntext\n";
    let root = org2mdx::mdx_to_ast::try_parse(input).unwrap().unwrap();
    assert_eq!(root.get_data_str("title"), Some("T"));
    let children = root.children.as_ref().unwrap();
    assert_eq!(children.len(), 2);
    assert_eq!(children[0].node_type, "heading");
    assert_eq!(children[1].node_type, "paragraph");
}

#[test]
fn mdx_without_front_matter() {
    let root = org2mdx::parser::mdx::try_parse_mdx("plain\n").unwrap().unwrap();
    assert!(root.data.is_empty());
    let children = root.children.as_ref().unwrap();
    assert_eq!(children.len(), 1);
    assert_eq!(children[0].node_type, "paragraph");
}

#[test]
fn options_written_in_key_order() {
    let opt = |k: &str, b: bool| DataEntry { key: k.to_string(), value: DataValue::Bool(b) };
    let options = DataEntry {
        key: "options".to_string(),
        value: DataValue::Object(vec![opt("toc", false), opt("num", false), opt("author", true)]),
    };
    let fm = vec![DataEntry { key: "org".to_string(), value: DataValue::Object(vec![options]) }];
    let root = build_mdx_root(fm, &MdNode::Root(Vec::new()), &Vec::new()).unwrap();
    let org = try_render_org(&root).unwrap();
    assert!(org.contains("#+OPTIONS: author:t num:nil toc:nil\n"), "{}", org);
}
