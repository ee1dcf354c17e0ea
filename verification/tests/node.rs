use org2mdx::ast::node::{DataEntry, DataValue, AstNode};

#[test]
fn test_stub_types() {}

#[test]
fn test_node_new() {
    let node = AstNode::new("paragraph");
    assert_eq!(node.node_type, "paragraph");
    assert!(node.children.is_none());
}

#[test]
fn test_node_with_children() {
    let node = AstNode::new("section").with_children(vec![AstNode::text("hello")]);
    assert_eq!(node.children.unwrap().len(), 1);
}

#[test]
fn test_node_data() {
    let node = AstNode::new("heading")
        .data_num("depth", 2)
        .data_str("id", "intro")
        .data_bool("todo", true);
    assert_eq!(node.get_data_num("depth"), Some(2));
    assert_eq!(node.get_data_str("id"), Some("intro"));
    assert_eq!(node.get_data_bool("todo"), Some(true));
}

#[test]
fn test_node_data_list() {
    let node = AstNode::new("heading").data_list_val(
        "tags",
        vec![DataValue::Str("rust".into()), DataValue::Str("org".into())],
    );
    let list = node.get_data_list("tags").unwrap();
    assert_eq!(list.len(), 2);
    assert!(matches!(&list[0], DataValue::Str(s) if s == "rust"));
}

#[test]
fn test_node_with_data_map() {
    let map = vec![
        DataEntry { key: "title".into(), value: DataValue::Str("Hello".into()) },
        DataEntry { key: "date".into(), value: DataValue::Str("2024-01-01".into()) },
    ];
    let node = AstNode::root(vec![]).with_data_map(map);
    assert_eq!(node.get_data_str("title"), Some("Hello"));
    assert_eq!(node.get_data_str("date"), Some("2024-01-01"));
}

#[test]
fn data_written_twice_keeps_one_entry_with_the_last_value() {
    let node = AstNode::new("x").data_str("k", "a").data_num("n", 1).data_str("k", "b");
    assert_eq!(node.data.len(), 2);
    assert_eq!(node.data[0].key, "k");
    assert_eq!(node.get_data_str("k"), Some("b"));
    assert_eq!(node.get_data_num("n"), Some(1));
}

#[test]
fn data_getters_check_the_kind() {
    let node = AstNode::new("x").data_str("s", "v").data_bool("b", false);
    assert_eq!(node.get_data_num("s"), None);
    assert_eq!(node.get_data_bool("s"), None);
    assert_eq!(node.get_data_str("b"), None);
    assert_eq!(node.get_data_bool("b"), Some(false));
    assert_eq!(node.get_data_str("missing"), None);
    assert!(node.get_data_list("s").is_none());
    assert!(node.get_data_map("s").is_none());
}

#[test]
fn root_and_text_nodes() {
    let r = AstNode::root(vec![AstNode::text("a"), AstNode::text("b")]);
    assert_eq!(r.node_type, "root");
    let kids = r.children.unwrap();
    assert_eq!(kids.len(), 2);
    assert_eq!(kids[1].node_type, "text");
    assert_eq!(kids[1].value.as_deref(), Some("b"));
}
