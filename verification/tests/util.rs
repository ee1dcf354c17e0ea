use org2mdx::util::{
    collapse_spaces, days_in_month, escape_url_parens, html_to_jsx, iso_to_org_date, jsx_to_html,
    kw, org_date_to_iso, pct_encode, strip_prefix_spaces, yaml_str,
};

#[test]
fn spaces_collapse_once_and_for_all() {
    let once = collapse_spaces("a   b  c d");
    assert_eq!(once, "a b c d");
    assert_eq!(collapse_spaces(&once), once);
    assert_eq!(collapse_spaces(""), "");
}

#[test]
fn keyword_lines() {
    assert_eq!(kw("#+title: Foo ", "TITLE").as_deref(), Some("Foo"));
    assert_eq!(kw("  #+TITLE:Bar", "title").as_deref(), Some("Bar"));
    assert_eq!(kw("text", "TITLE"), None);
    assert_eq!(kw("#+TITLES: x", "TITLE"), None);
}

#[test]
fn prefix_spaces() {
    assert_eq!(strip_prefix_spaces("  \tx", 2), "\tx");
    assert_eq!(strip_prefix_spaces("   x", 5), "x");
    assert_eq!(strip_prefix_spaces("x", 3), "x");
}

#[test]
fn url_escaping() {
    assert_eq!(pct_encode("img/a b.png"), "img/a%20b.png");
    assert_eq!(pct_encode("é"), "%C3%A9");
    assert_eq!(pct_encode("a-b_c.d+e"), "a-b_c.d+e");
    assert_eq!(escape_url_parens("a(b)&c"), "a\\(b\\)\\&c");
}

#[test]
fn yaml_quoting() {
    assert_eq!(yaml_str("plain"), "plain");
    assert_eq!(yaml_str("a: b"), "\"a: b\"");
    assert_eq!(yaml_str("say \"hi\""), "\"say \\\"hi\\\"\"");
}

#[test]
fn month_lengths() {
    assert_eq!(days_in_month(2024, 2), 29);
    assert_eq!(days_in_month(1900, 2), 28);
    assert_eq!(days_in_month(2000, 2), 29);
    assert_eq!(days_in_month(2023, 4), 30);
    assert_eq!(days_in_month(2023, 12), 31);
    assert_eq!(days_in_month(2023, 13), 30);
}

#[test]
fn org_dates_to_utc() {
    assert_eq!(org_date_to_iso("<2024-03-01 Fri 05:30>").as_deref(), Some("2024-02-29T21:30:00.000Z"));
    assert_eq!(org_date_to_iso("2024-01-01").as_deref(), Some("2023-12-31T16:00:00.000Z"));
    assert_eq!(org_date_to_iso("<2024-05-10 Fri 12:00>").as_deref(), Some("2024-05-10T04:00:00.000Z"));
    assert_eq!(org_date_to_iso(""), None);
    assert_eq!(org_date_to_iso("bad"), None);
}

#[test]
fn utc_dates_to_org() {
    assert_eq!(iso_to_org_date("2024-02-29T21:30:00.000Z").as_deref(), Some("<2024-03-01 Fri 05:30>"));
    assert_eq!(iso_to_org_date("2024-05-10T04:00:00.000Z").as_deref(), Some("<2024-05-10 Fri 12:00>"));
    assert_eq!(iso_to_org_date("no-t"), None);
}

#[test]
fn dates_round_trip() {
    for d in ["<2024-03-01 Fri 05:30>", "<2024-05-10 Fri 12:00>", "<2024-01-01 Mon 00:00>"] {
        let iso = org_date_to_iso(d).unwrap();
        assert_eq!(iso_to_org_date(&iso).as_deref(), Some(d));
    }
}

#[test]
fn markup_rewritten_for_jsx() {
    assert_eq!(html_to_jsx("<img src=\"a.png\" class=\"x\">"), "<img src=\"a.png\" className=\"x\" />");
    assert_eq!(html_to_jsx("<br>"), "<br />");
    assert_eq!(html_to_jsx("<!-- hi -->"), "{/* hi */}");
    assert_eq!(html_to_jsx("<p style=\"color: red\">x</p>"), "<p style=\"{{color: 'red'}}\">x</p>");
    assert_eq!(html_to_jsx("a < b"), "a < b");
    assert_eq!(html_to_jsx("<!-- open"), "<!-- open");
}

#[test]
fn markup_rewritten_for_html() {
    assert_eq!(jsx_to_html("<br />"), "<br>");
    assert_eq!(jsx_to_html("{/* hi */}"), "<!-- hi -->");
    assert_eq!(jsx_to_html("<label htmlFor=\"a\">"), "<label for=\"a\">");
    assert_eq!(
        jsx_to_html("<p style=\"{{color: 'red', fontSize: '2px'}}\">x</p>"),
        "<p style=\"color: red; font-size: 2px\">x</p>"
    );
}

#[test]
fn text_without_markup_is_left_alone() {
    let s = "no tags here & there: {x}";
    assert_eq!(html_to_jsx(s), s);
}

#[test]
fn instants_round_trip() {
    for iso in ["2024-02-29T21:30:00.000Z", "2023-12-31T16:00:00.000Z", "2024-05-10T04:05:00.000Z"] {
        let org = iso_to_org_date(iso).unwrap();
        assert_eq!(org_date_to_iso(&org).as_deref(), Some(iso));
    }
}

#[test]
fn yaml_scalars_quoted_only_when_needed() {
    assert_eq!(yaml_str("plain"), "plain");
    assert_eq!(yaml_str("a: b"), "\"a: b\"");
    assert_eq!(yaml_str("say \"hi\""), "\"say \\\"hi\\\"\"");
}

#[test]
fn paths_percent_encoded_by_utf8_bytes() {
    assert_eq!(pct_encode("a b.png"), "a%20b.png");
    assert_eq!(pct_encode("dir/ü+x"), "dir/%C3%BC+x");
}

#[test]
fn early_years_round_trip() {
    let iso = "0999-03-04T02:00:00.000Z";
    let org = iso_to_org_date(iso).unwrap();
    assert!(org.starts_with("<0999-03-04 "));
    assert!(org.ends_with(" 10:00>"));
    assert_eq!(org_date_to_iso(&org).as_deref(), Some(iso));
}
