use org2mdx::parser::org::block::parse_block_begin as org_begin;
use org2mdx::parser::org::heading::split_tags;
use org2mdx::block::{parse_block_begin, BlockType};
use org2mdx::list::{is_ordered_item, is_unordered_item, ordered_parts, unordered_content};

#[test]
fn list_lines() {
    assert!(is_unordered_item("- a"));
    assert!(is_unordered_item("  + x"));
    assert!(!is_unordered_item("- "));
    assert!(!is_unordered_item("-a"));
    assert_eq!(unordered_content("  - item"), "item");
    assert!(is_ordered_item("12. x"));
    assert!(!is_ordered_item(". x"));
    assert!(!is_ordered_item("1.x"));
    assert_eq!(ordered_parts("3. three"), ("3".to_string(), "three".to_string()));
    assert_eq!(ordered_parts("no dot"), ("1".to_string(), "no dot".to_string()));
}

#[test]
fn block_openers() {
    assert!(matches!(parse_block_begin("#+begin_src C++"), BlockType::Src(l) if l == "c"));
    assert!(matches!(parse_block_begin("#+begin_src python -n"), BlockType::Src(l) if l == "python -n"));
    assert!(matches!(parse_block_begin("#+BEGIN_EXPORT html"), BlockType::Export(t) if t.is_empty()));
    assert!(matches!(parse_block_begin("#+begin_export html"), BlockType::Export(t) if t == "html"));
    assert!(matches!(parse_block_begin("#+begin_verse  a b"), BlockType::Unknown(n) if n == "verse"));
    assert!(matches!(parse_block_begin("#+begin_"), BlockType::Unknown(n) if n == "unknown"));
    assert!(matches!(parse_block_begin("#+BEGIN_QUOTE"), BlockType::Quote));
    assert_eq!(parse_block_begin("#+begin_src rust").end_keyword(), "src");
    assert_eq!(parse_block_begin("#+begin_verse").end_keyword(), "verse");
    assert_eq!(parse_block_begin("#+begin_example").end_keyword(), "example");
}

#[test]
fn blocks_close_with_their_opening_word() {
    assert_eq!(org_begin("  #+BEGIN_QUOTE").end_keyword(), "quote");
    assert_eq!(org_begin("#+begin_src rust :exports code").end_keyword(), "src");
    assert_eq!(org_begin("#+begin_export html").end_keyword(), "export");
    assert_eq!(org_begin("#+begin_details").end_keyword(), "details");
}

#[test]
fn heading_tag_groups_split_off() {
    let (h, tags) = split_tags("Title  :a:b:");
    assert_eq!(h, "Title");
    assert_eq!(tags, vec!["a".to_string(), "b".to_string()]);
    let (h, tags) = split_tags("Title :x:");
    assert_eq!(h, "Title");
    assert_eq!(tags, vec!["x".to_string()]);
    let (h, tags) = split_tags("No tags here");
    assert_eq!(h, "No tags here");
    assert!(tags.is_empty());
}
