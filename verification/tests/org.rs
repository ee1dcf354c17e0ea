use org2mdx::org_to_mdx::{convert, try_convert};
use org2mdx::parser::org::{parse_org, try_parse_org};
use org2mdx::renderer::mdx_renderer::render_mdx;
use org2mdx::renderer::org_renderer::{render_org, try_render_org};

const DOC: &str = "#+TITLE: Hello\n* Intro\nSome *bold* text.\n\n- a\n- b\n";

#[test]
fn org_document_to_mdx() {
    let out = convert(DOC).unwrap();
    assert_eq!(out, "---\ntitle: Hello\n---\n# Intro\nSome **bold** text.\n\n* a\n* b\n\n");
}

#[test]
fn org_document_tree() {
    let root = parse_org(DOC).unwrap();
    assert_eq!(root.node_type, "root");
    assert_eq!(root.get_data_str("title"), Some("Hello"));
    let kids = root.children.as_ref().unwrap();
    let kinds: Vec<&str> = kids.iter().map(|n| n.node_type.as_str()).collect();
    assert_eq!(kinds, vec!["heading", "paragraph", "blankLine", "list"]);
    assert_eq!(kids[0].get_data_num("depth"), Some(1));
    assert_eq!(kids[3].get_data_bool("ordered"), Some(false));
    assert_eq!(kids[3].children.as_ref().unwrap().len(), 2);
}

#[test]
fn org_document_back_to_org() {
    let root = try_parse_org(DOC).unwrap();
    let org = render_org(&root);
    assert_eq!(
        org,
        "#+TITLE: Hello\n#+OPTIONS: num:nil ^:nil\n\n* Intro\n\nSome *bold* text.\n\n\n- a\n- b\n"
    );
    assert_eq!(try_render_org(&root), Some(org));
}

#[test]
fn skipped_sections_are_dropped() {
    let out = try_convert("* A :noexport:\nhidden\n* B\ntext\n").unwrap();
    assert_eq!(out, "# B\ntext\n");
}

#[test]
fn colon_lines_make_a_code_block() {
    let out = try_convert(": code\n: more\n").unwrap();
    assert_eq!(out, "```\ncode\nmore\n```\n");
}

#[test]
fn source_block_keeps_language_and_drops_common_indent() {
    let out = try_convert("#+begin_src rust\n    fn main() {}\n#+end_src\n").unwrap();
    assert_eq!(out, "```rust\nfn main() {}\n```\n");
}

#[test]
fn ordered_list_items_are_numbered() {
    let out = try_convert("1. one\n2. two\n").unwrap();
    assert_eq!(out, "1. one\n2. two\n\n");
}

#[test]
fn leading_blank_lines_are_skipped() {
    let out = try_convert("\n\nplain\n").unwrap();
    assert_eq!(out, "plain\n");
}

#[test]
fn render_mdx_of_an_empty_root() {
    let root = parse_org("").unwrap();
    assert_eq!(render_mdx(&root), "");
    assert_eq!(render_org(&root), "\n");
}

#[test]
fn documents_the_reader_refuses() {
    // A heading whose tag range would run backwards.
    assert!(try_parse_org("* Title :\n").is_none());
    assert!(try_convert("text\n* Title :\n").is_none());
    // HTML markup the fragment reader cannot get past.
    assert!(try_parse_org("#+HTML: <a\n").is_none());
    // Well-formed documents are read.
    assert!(try_parse_org("* Title :tag:\n").is_some());
}

#[test]
fn html_keyword_lines_become_jsx() {
    let out = try_convert("#+HTML: <br>\n").unwrap();
    assert_eq!(out, "<br />\n");
}
