use org2mdx::converter::OrgConverter;
use org2mdx::error::Error;
use org2mdx::frontmatter::FrontmatterBuilder;
use org2mdx::paragraph::ParagraphParser;

#[test]
fn front_matter_in_key_order() {
    let mut fm = FrontmatterBuilder::new();
    fm.set_str("title", "A: B".to_string());
    fm.set_list("tags", vec!["x".to_string(), "y".to_string()]);
    fm.push_list("alias", "p".to_string());
    fm.push_list("alias", "q".to_string());
    fm.set_str("abbrlink", "12:34".to_string());
    fm.set_str("title", "C".to_string());
    assert_eq!(
        fm.build(),
        "---\ntitle: C\ntags:\n  - x\n  - y\nalias:\n  - p\n  - q\nabbrlink: 12:34\n---\n\n"
    );
}

#[test]
fn a_string_gives_way_to_a_list() {
    let mut fm = FrontmatterBuilder::new();
    fm.set_str("alias", "s".to_string());
    fm.push_list("alias", "t".to_string());
    assert_eq!(fm.build(), "---\nalias:\n  - t\n---\n\n");
    assert_eq!(FrontmatterBuilder::new().build(), "---\n---\n\n");
}

#[test]
fn converter_reads_links_and_paragraphs() {
    let mut c = OrgConverter::new("Some  *bold*\ntext here\\\\\n\nafter");
    c.process_directive_line("#+TITLE: T");
    c.process_directive_line("#+LINK: gh https://github.com/");
    assert_eq!(c.inline("[[gh]]"), "[gh](https://github.com/)");
    let (text, lb) = c.collect_paragraph();
    assert_eq!(text, "Some **bold** text here");
    assert!(lb);
    let (text, lb) = c.collect_paragraph();
    assert_eq!(text, "");
    assert!(!lb);
}

#[test]
fn error_messages() {
    assert_eq!(Error::Io("gone".to_string()).message(), "IO error: gone");
    assert_eq!(Error::InvalidInput("bad".to_string()).message(), "Parse error: bad");
}
