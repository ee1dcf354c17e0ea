use org2mdx::ast::node::{AstNode, DataEntry, DataValue};
use org2mdx::inline::convert_inline;
use org2mdx::inline_parser::{parse_inline as parse_pieces, Inline};
use org2mdx::parser::inline::{parse_inline, LinkAliases};

fn chars(s: &str) -> Vec<char> {
    s.chars().collect()
}

fn aliases() -> LinkAliases {
    let mut al = LinkAliases::new();
    al.insert(&chars("gh"), &chars("https://github.com/"));
    al
}

fn text_of(nodes: &[AstNode]) -> String {
    let mut s = String::new();
    for n in nodes {
        if let Some(v) = &n.value {
            s.push_str(v);
        }
        if let Some(c) = &n.children {
            s.push_str(&text_of(c));
        }
    }
    s
}

#[test]
fn aliases_latest_definition_wins() {
    let mut al = aliases();
    al.insert(&chars("wp"), &chars("https://w.org/"));
    al.insert(&chars("gh"), &chars("https://gh.example/"));
    assert_eq!(al.get(&chars("gh")), Some(chars("https://gh.example/")));
    assert_eq!(al.get(&chars("wp")), Some(chars("https://w.org/")));
    assert_eq!(al.get(&chars("none")), None);
}

#[test]
fn convert_links_and_images() {
    let al = LinkAliases::new();
    assert_eq!(
        convert_inline("see [[https://x.org][the site]] now", &al),
        "see [the site](https://x.org) now"
    );
    assert_eq!(convert_inline("[[file:img/a b.png]]", &al), "[img](img/a%20b.png)");
    assert_eq!(convert_inline("[[file:doc.pdf]]", &al), "[doc.pdf](file:doc.pdf)");
    assert_eq!(convert_inline("[[a&b]]", &al), "[a\\&b](a\\&b)");
    assert_eq!(convert_inline("[[gh]]", &aliases()), "[gh](https://github.com/)");
    assert_eq!(convert_inline("[[gh:foo]]", &aliases()), "[gh:foo](gh:foo)");
}

#[test]
fn convert_emphasis_code_and_subscripts() {
    let al = LinkAliases::new();
    assert_eq!(
        convert_inline("*bold* and /it/ and +del+ and =v= and ~c~", &al),
        "**bold** and *it* and ~~del~~ and `v` and `c`"
    );
    assert_eq!(convert_inline("a~b", &al), "a\\~b");
    assert_eq!(convert_inline("H_{2}O", &al), "H2O");
    assert_eq!(convert_inline("_{2}", &al), "_{2}");
    assert_eq!(
        convert_inline("go https://a.b/(x) ok", &al),
        "go [https://a.b/(x)](https://a.b/\\(x\\)) ok"
    );
}

#[test]
fn parse_inline_nodes() {
    let al = aliases();
    let nodes = parse_inline("*b* [[gh:x][X]]", &al, &mut None);
    assert_eq!(nodes[0].node_type, "strong");
    assert_eq!(text_of(nodes[0].children.as_ref().unwrap()), "b");
    let link = nodes.last().unwrap();
    assert_eq!(link.node_type, "link");
    assert_eq!(link.get_data_str("url"), Some("https://github.com/x"));
    assert_eq!(text_of(link.children.as_ref().unwrap()), "X");
}

#[test]
fn parse_inline_math_and_scripts() {
    let al = LinkAliases::new();
    let nodes = parse_inline("$x^2$", &al, &mut None);
    assert_eq!(nodes.len(), 1);
    assert_eq!(nodes[0].node_type, "inlineMath");
    assert_eq!(nodes[0].value.as_deref(), Some("x^2"));

    let nodes = parse_inline("H_{2}O", &al, &mut None);
    let kinds: Vec<&str> = nodes.iter().map(|n| n.node_type.as_str()).collect();
    assert_eq!(kinds, vec!["text", "subscript", "text"]);

    let nodes = parse_inline("_u_", &al, &mut None);
    assert_eq!(nodes[0].node_type, "underline");

    let nodes = parse_inline("$$a$$", &al, &mut None);
    assert_eq!(nodes[0].node_type, "displayMath");
    assert_eq!(nodes[0].value.as_deref(), Some("a"));

    let nodes = parse_inline("[[file:a.png]]", &al, &mut None);
    assert_eq!(nodes[0].node_type, "image");
    assert_eq!(nodes[0].get_data_str("url"), Some("a.png"));
    assert_eq!(nodes[0].get_data_str("alt"), Some("a.png"));

    let nodes = parse_inline("~", &al, &mut None);
    assert_eq!(nodes.len(), 1);
    assert_eq!(nodes[0].value.as_deref(), Some("~"));
}

#[test]
fn inline_pieces() {
    let al = LinkAliases::new();
    let p = parse_pieces("[[file:a b.png][pic]]", &al);
    assert_eq!(p.len(), 1);
    assert!(matches!(&p[0], Inline::Image(i) if i.url == "a%20b.png" && i.alt_text.as_deref() == Some("pic")));

    let p = parse_pieces("*x* =v= ~c~ ~", &al);
    assert!(matches!(&p[0], Inline::Bold(k) if k.len() == 1 && matches!(&k[0], Inline::Text(t) if t == "x")));
    assert!(matches!(&p[2], Inline::Verbatim(v) if v == "v"));
    assert!(matches!(&p[4], Inline::Code(c) if c == "c"));
    assert!(matches!(p.last().unwrap(), Inline::Text(t) if t == "~"));

    let p = parse_pieces("https://x.y z", &al);
    assert!(matches!(&p[0], Inline::Link(l) if l.url == "https://x.y" && l.text.len() == 1));
    assert_eq!(p.len(), 3);
}

fn entry(k: &str, v: &str) -> DataEntry {
    DataEntry { key: k.to_string(), value: DataValue::Str(v.to_string()) }
}

#[test]
fn pending_attr_html_goes_to_first_link() {
    let al = aliases();
    let mut pending = Some(vec![entry("width", "300"), entry("alt", "x")]);
    let nodes = parse_inline("see [[file:a.png]] and [[https://e.com][E]]", &al, &mut pending);
    assert!(pending.is_none());
    let image = nodes.iter().find(|n| n.node_type == "image").unwrap();
    let attr = image.data.iter().find(|e| e.key == "attr_html").unwrap();
    match &attr.value {
        DataValue::Object(m) => {
            let keys: Vec<&str> = m.iter().map(|e| e.key.as_str()).collect();
            assert_eq!(keys, vec!["alt", "width"]);
        }
        _ => panic!("attr_html is not an object"),
    }
    let link = nodes.iter().find(|n| n.node_type == "link").unwrap();
    assert!(link.data.iter().all(|e| e.key != "attr_html"));
}

#[test]
fn pending_attr_html_kept_without_link() {
    let al = aliases();
    let mut pending = Some(vec![entry("width", "300")]);
    let nodes = parse_inline("no links here", &al, &mut pending);
    assert!(!nodes.is_empty());
    assert!(pending.is_some());
    let mut empty = Some(Vec::new());
    let nodes = parse_inline("[[file:a.png]]", &al, &mut empty);
    assert!(empty.is_none());
    assert!(nodes[0].data.iter().all(|e| e.key != "attr_html"));
}
