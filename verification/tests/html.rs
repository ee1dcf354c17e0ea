use org2mdx::renderer::html_jsx::{html_to_jsx, jsx_to_html, try_html_to_jsx, try_jsx_to_html};

#[test]
fn fragments_to_jsx() {
    assert_eq!(html_to_jsx("<img src=\"a.png\" class=\"x\">"), "<img src=\"a.png\" className=\"x\" />");
    assert_eq!(
        html_to_jsx("<div style=\"color: red; font-size: 2px\">hi</div>"),
        "<div style=\"{{color: 'red', fontSize: '2px'}}\">hi</div>"
    );
    assert_eq!(html_to_jsx("<!-- note -->"), "{/* note */}");
    assert_eq!(html_to_jsx("<p>a</p> <p>b</p>"), "<p>a</p><p>b</p>");
    assert_eq!(html_to_jsx("  hello"), "hello");
}

#[test]
fn fragments_to_html() {
    assert_eq!(jsx_to_html("<img src=\"a.png\" className=\"x\" />"), "<img src=\"a.png\" class=\"x\">");
    assert_eq!(jsx_to_html("{/* c */}"), "<!-- c -->");
    assert_eq!(
        jsx_to_html("<div style={{color: 'red', fontSize: '2px'}}>x</div>"),
        "<div style=\"color: red; font-size: 2px\">x</div>"
    );
}

#[test]
fn fragments_round_trip() {
    let html = "<div class=\"box\" style=\"color: red; font-size: 2px\">hi<br></div>";
    let jsx = try_html_to_jsx(html).unwrap();
    assert_eq!(try_jsx_to_html(&jsx).as_deref(), Some("<div class=\"box\" style=\"color: red; font-size: 2px\">hi<br></div>"));
}

#[test]
fn canonical_html_survives_the_round_trip() {
    let h = "<label for=\"x\">a</label><br>";
    let j = html_to_jsx(h);
    assert_eq!(j, "<label htmlFor=\"x\">a</label><br />");
    assert_eq!(jsx_to_html(&j), h);
    let h = "<div class=\"c\" hidden><!-- note --><p>text <b>bold</b></p></div>";
    assert_eq!(jsx_to_html(&html_to_jsx(h)), h);
}
