use org2mdx::ast::node::DataValue;
use org2mdx::parser::mdx::yaml::{extract_frontmatter, try_extract_frontmatter};

fn str_of(v: &DataValue) -> Option<&str> {
    match v {
        DataValue::Str(s) => Some(s.as_str()),
        _ => None,
    }
}

#[test]
fn front_matter_from_yaml() {
    let input = "---\ntitle: Hello\ndate: 2024-05-10T04:00:00.000Z\ntags:\n  - a\n  - 1\ndraft: true\nmeta:\n  b: 2\n  a: x\n---\nbody";
    let (fm, body) = try_extract_frontmatter(input).unwrap();
    assert_eq!(body, "body");
    let keys: Vec<&str> = fm.iter().map(|e| e.key.as_str()).collect();
    assert_eq!(keys, vec!["title", "date", "tags", "draft", "meta"]);
    assert_eq!(str_of(&fm[0].value), Some("Hello"));
    assert_eq!(str_of(&fm[1].value), Some("<2024-05-10 Fri 12:00>"));
    match &fm[2].value {
        DataValue::List(l) => {
            assert_eq!(l.len(), 2);
            assert_eq!(str_of(&l[0]), Some("a"));
            assert_eq!(str_of(&l[1]), Some("1"));
        }
        _ => panic!("tags should be a list"),
    }
    assert_eq!(str_of(&fm[3].value), Some("true"));
    match &fm[4].value {
        DataValue::Object(m) => {
            assert_eq!(m.len(), 2);
            assert_eq!(m[0].key, "a");
            assert_eq!(str_of(&m[0].value), Some("x"));
            assert_eq!(m[1].key, "b");
            assert!(matches!(m[1].value, DataValue::Int(2)));
        }
        _ => panic!("meta should be an object"),
    }
}

#[test]
fn dates_that_are_not_instants_stay_as_written() {
    let (fm, _) = extract_frontmatter("---\nupdated: yesterday\n---\n");
    assert_eq!(str_of(&fm[0].value), Some("yesterday"));
}

#[test]
fn date_with_impossible_month_is_refused() {
    assert!(try_extract_frontmatter("---\ndate: 2024-13-40T00:00\n---\nx").is_none());
}

#[test]
fn without_front_matter_the_input_is_the_body() {
    let (fm, body) = extract_frontmatter("  # Title\n");
    assert!(fm.is_empty());
    assert_eq!(body, "# Title\n");
    let (fm, body) = extract_frontmatter("---\nkey: [unclosed\n---\nrest");
    assert!(fm.is_empty());
    assert_eq!(body, "---\nkey: [unclosed\n---\nrest");
}

#[test]
fn nested_numbers_without_i64_value_stay_numbers() {
    let (fm, _) = extract_frontmatter("---\nmeta:\n  ratio: 1.5\n  n: 3\n---\nbody");
    match &fm[0].value {
        DataValue::Object(m) => {
            assert_eq!(m[0].key, "n");
            assert!(matches!(m[0].value, DataValue::Int(3)));
            assert_eq!(m[1].key, "ratio");
            match &m[1].value {
                DataValue::Real(t) => assert_eq!(t, "1.5"),
                _ => panic!("ratio should stay a number"),
            }
        }
        _ => panic!("meta should be an object"),
    }
}
