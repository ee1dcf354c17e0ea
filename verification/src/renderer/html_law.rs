//! Canonical HTML fragments survive the trip to JSX and back.
use vstd::prelude::*;
use crate::renderer::html_jsx::{
    attr_loop, attr_table, canonical_of, elem, is_void_tag, kids, lemma_stops,
    name_stop, name_stop_from, read_nodes, single, spec_attr_out, spec_canonical_to_html_attr,
    spec_html_to_jsx, spec_jsx_to_html, spec_normalize_attr_name, spec_serialize_attrs,
    spec_serialize_node, spec_serialize_nodes, tag_stop, tag_stop_from, text_end, Kids, SHtml, Step,
};
use crate::text::{
    find_char_from, find_from, is_ascii_alpha, is_ws,
    lemma_ws_run_end, lemma_ws_run_start, occurs_at, str_lowercase, trim, ws_run_end, ws_run_start,
};

verus! {

// ------------------------------------------------------------------
// What canonical HTML is made of
// ------------------------------------------------------------------

/// A word that ends at the first whitespace, `=`, `>`, `/` or `"` after it.
pub open spec fn plain_word(n: Seq<char>) -> bool {
    n.len() > 0 && forall|i: int| 0 <= i < n.len() ==> !name_stop(#[trigger] n[i]) && !is_ws(n[i]) && n[i] != '"'
}

/// An attribute of a canonical fragment, as the tree holds it (by its JSX name): its
/// HTML name is a plain lower-case word that reads back as it, it is not `style`, and
/// its value holds no `"`.
pub open spec fn canon_attr(a: (Seq<char>, Seq<char>)) -> bool {
    let n = a.0;
    let h = spec_canonical_to_html_attr(n);
    &&& n != "style"@
    &&& plain_word(n)
    &&& plain_word(h)
    &&& str_lowercase(h) == h
    &&& (canonical_of(attr_table(), h) == Some(n) || (canonical_of(attr_table(), h) is None && h == n))
    &&& forall|i: int| 0 <= i < a.1.len() ==> #[trigger] a.1[i] != '"'
}

/// The attribute reads back as it was written, in either mode.
proof fn lemma_canon_name(n: Seq<char>, jsx: bool)
    requires
        canon_attr((n, Seq::empty())),
    ensures
        spec_normalize_attr_name(if jsx { n } else { spec_canonical_to_html_attr(n) }, jsx) == n,
{
}

proof fn lemma_ws_run_end_fixed(s: Seq<char>, i: int)
    requires
        0 <= i <= s.len(),
    ensures
        ws_run_end(s, ws_run_end(s, i)) == ws_run_end(s, i),
{
    lemma_ws_run_end(s, i);
}

/// Reading attributes starts by skipping whitespace.
proof fn lemma_attr_loop_ws(s: Seq<char>, i: int, jsx: bool)
    requires
        0 <= i <= s.len(),
    ensures
        attr_loop(s, ws_run_end(s, i), jsx) == attr_loop(s, i, jsx),
{
    lemma_ws_run_end(s, i);
    lemma_ws_run_end_fixed(s, i);
}

/// One attribute written at `p` is read back, and reading goes on where it ends.
proof fn lemma_attr_read(s: Seq<char>, p: int, a: (Seq<char>, Seq<char>), jsx: bool)
    requires
        canon_attr(a),
        0 <= p,
        occurs_at(s, spec_attr_out(a.0, a.1, jsx), p),
        ({
            let q = p + spec_attr_out(a.0, a.1, jsx).len();
            q < s.len() && (s[q] == '>' || (s[q] == ' ' && ws_run_end(s, q) < s.len() && s[ws_run_end(s, q)] != '='))
        }),
    ensures
        ({
            let q = p + spec_attr_out(a.0, a.1, jsx).len();
            attr_loop(s, p, jsx) == (seq![a] + attr_loop(s, q, jsx).0, attr_loop(s, q, jsx).1)
        }),
{
    reveal_strlit(" ");
    reveal_strlit("=\"");
    reveal_strlit("\"");
    let n = a.0;
    let v = a.1;
    let dname = if jsx { n } else { spec_canonical_to_html_attr(n) };
    let w = spec_attr_out(n, v, jsx);
    let q = p + w.len();
    assert(w.subrange(0, 1) =~= " "@) by {
        if v.len() == 0 {
            assert(w =~= " "@ + dname);
        } else {
            assert(w =~= " "@ + dname + "=\""@ + v + "\""@);
        }
    }
    assert(s[p] == w[0]);
    assert(s[p] == ' ');
    let j = p + 1;
    assert(dname.len() > 0);
    assert(s[j] == w[1]);
    assert(w[1] == dname[0]);
    lemma_ws_run_end(s, p);
    assert(ws_run_end(s, p + 1) == p + 1);
    assert(ws_run_end(s, p) == j);
    let ne = j + dname.len();
    assert forall|i: int| j <= i < ne implies !name_stop(#[trigger] s[i]) by {
        assert(s[i] == w[i - p]);
        assert(w[i - p] == dname[i - j]);
    }
    lemma_canon_name(n, jsx);
    assert(s.subrange(j, ne) =~= dname) by {
        assert forall|i: int| 0 <= i < dname.len() implies s.subrange(j, ne)[i] == dname[i] by {
            assert(s[j + i] == w[1 + i]);
        }
    }
    lemma_stops(s, j);
    assert(!name_stop(s[j]));
    assert(s[j] != '>' && s[j] != '/');
    assert(!is_ws('=') && !is_ws('"'));
    if v.len() == 0 {
        assert(w =~= " "@ + dname);
        assert(ne == q);
        lemma_name_stop_run(s, j, ne);
        lemma_ws_run_end(s, q);
        lemma_attr_loop_ws(s, q, jsx);
        if s[q] == '>' {
            assert(ws_run_end(s, q) == q);
        }
        assert(name_stop_from(s, j) == ne);
        assert(spec_normalize_attr_name(s.subrange(j, ne), jsx) == n);
        let k = ws_run_end(s, ne);
        assert(!(k < s.len() && s[k] == '='));
        assert(attr_loop(s, p, jsx) == (seq![(n, Seq::<char>::empty())] + attr_loop(s, k, jsx).0, attr_loop(s, k, jsx).1));
        assert(v =~= Seq::<char>::empty());
    } else {
        assert(w =~= " "@ + dname + "=\""@ + v + "\""@);
        assert(("=\""@)[0] == '=');
        assert(("=\""@)[1] == '"');
        assert(("\""@)[0] == '"');
        assert(s[ne] == w[ne - p]);
        assert(w[ne - p] == ("=\""@)[0]);
        assert(s[ne] == '=');
        assert(s[ne + 1] == w[ne + 1 - p]);
        assert(s[ne + 1] == '"');
        lemma_name_stop_run(s, j, ne);
        lemma_ws_run_end(s, ne);
        lemma_ws_run_end(s, ne + 1);
        let m = ne + 1;
        assert forall|i: int| m + 1 <= i < q - 1 implies s[i] != '"' by {
            assert(s[i] == w[i - p]);
            assert(w[i - p] == v[i - m - 1]);
        }
        assert(s[q - 1] == w[q - 1 - p]);
        assert(s[q - 1] == '"');
        lemma_first_quote(s, m + 1, q - 1);
        assert(s.subrange(m + 1, q - 1) =~= v) by {
            assert forall|i: int| 0 <= i < v.len() implies s.subrange(m + 1, q - 1)[i] == v[i] by {
                assert(s[m + 1 + i] == w[m + 1 + i - p]);
            }
        }
        assert(name_stop_from(s, j) == ne);
        assert(ws_run_end(s, ne) == ne);
        assert(ws_run_end(s, ne + 1) == m);
        assert(attr_loop(s, p, jsx) == (seq![(n, v)] + attr_loop(s, q, jsx).0, attr_loop(s, q, jsx).1));
    }
}

proof fn lemma_name_stop_run(s: Seq<char>, j: int, e: int)
    requires
        0 <= j <= e <= s.len(),
        forall|i: int| j <= i < e ==> !name_stop(#[trigger] s[i]),
        e < s.len() ==> name_stop(s[e]),
    ensures
        name_stop_from(s, j) == e,
    decreases e - j,
{
    if j < e {
        lemma_name_stop_run(s, j + 1, e);
    }
}

proof fn lemma_first_quote(s: Seq<char>, i: int, e: int)
    requires
        0 <= i <= e < s.len(),
        s[e] == '"',
        forall|k: int| i <= k < e ==> s[k] != '"',
    ensures
        find_char_from(s, '"', i) == Some(e),
    decreases e - i,
{
    if i < e {
        lemma_first_quote(s, i + 1, e);
    }
}


proof fn lemma_serialize_attrs_cons(a: Seq<(Seq<char>, Seq<char>)>, jsx: bool)
    requires
        a.len() > 0,
    ensures
        spec_serialize_attrs(a, jsx) == spec_attr_out(a[0].0, a[0].1, jsx) + spec_serialize_attrs(a.drop_first(), jsx),
    decreases a.len(),
{
    if a.len() == 1 {
        assert(a.drop_last().len() == 0);
        assert(a.drop_first().len() == 0);
        assert(spec_serialize_attrs(a.drop_first(), jsx) == Seq::<char>::empty());
        assert(spec_serialize_attrs(a.drop_last(), jsx) == Seq::<char>::empty());
        assert(spec_serialize_attrs(a, jsx) =~= spec_attr_out(a[0].0, a[0].1, jsx) + spec_serialize_attrs(a.drop_first(), jsx));
    } else {
        lemma_serialize_attrs_cons(a.drop_last(), jsx);
        assert(a.drop_last().drop_first() =~= a.drop_first().drop_last());
        let l = a.drop_first();
        assert(l[l.len() - 1] == a[a.len() - 1]);
        assert(spec_serialize_attrs(a, jsx) =~= spec_attr_out(a[0].0, a[0].1, jsx) + spec_serialize_attrs(a.drop_first(), jsx));
    }
}

/// The attribute text ends with `>`, or with ` />`.
pub open spec fn attrs_close(s: Seq<char>, q: int) -> bool {
    q < s.len() && (s[q] == '>' || (s[q] == ' ' && q + 2 < s.len() && s[q + 1] == '/' && s[q + 2] == '>'))
}

/// Where the attributes closed by `attrs_close` stop being read.
pub open spec fn attrs_stop(s: Seq<char>, q: int) -> int {
    if s[q] == '>' { q } else { q + 1 }
}

/// Written attributes are read back, up to the `>` or `/>` that closes them.
proof fn lemma_attrs_read(s: Seq<char>, p: int, attrs: Seq<(Seq<char>, Seq<char>)>, jsx: bool)
    requires
        0 <= p,
        forall|i: int| 0 <= i < attrs.len() ==> canon_attr(#[trigger] attrs[i]),
        occurs_at(s, spec_serialize_attrs(attrs, jsx), p),
        attrs_close(s, p + spec_serialize_attrs(attrs, jsx).len()),
    ensures
        attr_loop(s, p, jsx) == (attrs, attrs_stop(s, p + spec_serialize_attrs(attrs, jsx).len())),
    decreases attrs.len(),
{
    let q = p + spec_serialize_attrs(attrs, jsx).len();
    lemma_ws_run_end(s, p);
    if attrs.len() == 0 {
        assert(q == p);
        if s[q] == ' ' {
            lemma_ws_run_end(s, q + 1);
        }
        assert(ws_run_end(s, p) == attrs_stop(s, q));
        assert(attr_loop(s, p, jsx) =~= (attrs, attrs_stop(s, q)));
    } else {
        lemma_serialize_attrs_cons(attrs, jsx);
        let a0 = attrs[0];
        let rest = attrs.drop_first();
        let w0 = spec_attr_out(a0.0, a0.1, jsx);
        let wr = spec_serialize_attrs(rest, jsx);
        let q0 = p + w0.len();
        assert(s.subrange(p, q0) =~= w0) by {
            assert forall|i: int| 0 <= i < w0.len() implies s.subrange(p, q0)[i] == w0[i] by {
                assert(s[p + i] == spec_serialize_attrs(attrs, jsx)[i]);
            }
        }
        assert(s.subrange(q0, q) =~= wr) by {
            assert forall|i: int| 0 <= i < wr.len() implies s.subrange(q0, q)[i] == wr[i] by {
                assert(s[q0 + i] == spec_serialize_attrs(attrs, jsx)[w0.len() + i]);
            }
        }
        assert forall|i: int| 0 <= i < rest.len() implies canon_attr(#[trigger] rest[i]) by {
            assert(rest[i] == attrs[i + 1]);
        }
        if rest.len() > 0 {
            lemma_serialize_attrs_cons(rest, jsx);
            let r0 = rest[0];
            assert(canon_attr(r0));
            let w1 = spec_attr_out(r0.0, r0.1, jsx);
            let d1 = if jsx { r0.0 } else { spec_canonical_to_html_attr(r0.0) };
            reveal_strlit(" ");
            reveal_strlit("=\"");
            assert(w1[0] == ' ' && w1[1] == d1[0]) by {
                if r0.1.len() == 0 {
                    assert(w1 =~= " "@ + d1);
                } else {
                    assert(w1 =~= " "@ + d1 + "=\""@ + r0.1 + "\""@);
                }
            }
            assert(s[q0] == wr[0]);
            assert(s[q0 + 1] == wr[1]);
            lemma_ws_run_end(s, q0 + 1);
            assert(!is_ws(d1[0]) && !name_stop(d1[0]));
            assert(ws_run_end(s, q0) == q0 + 1);
        } else {
            assert(q0 == q);
            if s[q] == ' ' {
                lemma_ws_run_end(s, q + 1);
                assert(ws_run_end(s, q) == q + 1);
            }
        }
        lemma_attr_read(s, p, a0, jsx);
        lemma_attrs_read(s, q0, rest, jsx);
        assert(seq![a0] + rest =~= attrs);
    }
}


// ------------------------------------------------------------------
// Text, comments and elements
// ------------------------------------------------------------------

/// Text of a canonical fragment: not empty, not starting with whitespace, without `<`
/// or `{`.
pub open spec fn canon_text(t: Seq<char>) -> bool {
    t.len() > 0 && !is_ws(t[0]) && forall|i: int| 0 <= i < t.len() ==> #[trigger] t[i] != '<' && t[i] != '{'
}

/// A comment's text: not empty, trimmed, without `-->` or `*/}`.
pub open spec fn canon_comment(t: Seq<char>) -> bool {
    &&& t.len() > 0
    &&& !is_ws(t[0])
    &&& !is_ws(t[t.len() - 1])
    &&& forall|i: int| !occurs_at(t, "-->"@, i) && !occurs_at(t, "*/}"@, i)
}

/// A tag name: a lower-case word starting with an ASCII letter.
pub open spec fn canon_tag(t: Seq<char>) -> bool {
    &&& t.len() > 0
    &&& is_ascii_alpha(t[0])
    &&& forall|i: int| 0 <= i < t.len() ==> !tag_stop(#[trigger] t[i]) && !is_ws(t[i])
    &&& str_lowercase(t) == t
}

/// A node of a canonical fragment: text, a comment, or an element with a canonical tag
/// and canonical attributes, void exactly when its tag is, a void one without children.
pub open spec fn canon_node(n: SHtml) -> bool
    decreases n, 1nat,
{
    match n {
        SHtml::Text(t) => canon_text(t),
        SHtml::Comment(t) => canon_comment(t),
        SHtml::Element { tag, attrs, children, void } => {
            &&& canon_tag(tag)
            &&& forall|i: int| 0 <= i < attrs.len() ==> canon_attr(#[trigger] attrs[i])
            &&& void == is_void_tag(tag)
            &&& (void ==> children.len() == 0)
            &&& canon_nodes(children)
        },
    }
}

/// A canonical sequence of nodes: each canonical, no two texts side by side.
pub open spec fn canon_nodes(ns: Seq<SHtml>) -> bool
    decreases ns, 0nat,
{
    if ns.len() == 0 {
        true
    } else {
        &&& canon_nodes(ns.drop_last())
        &&& canon_node(ns[ns.len() - 1])
        &&& !(ns.len() > 1 && ns[ns.len() - 1] is Text && ns[ns.len() - 2] is Text)
    }
}

proof fn lemma_canon_nodes_index(ns: Seq<SHtml>)
    requires
        canon_nodes(ns),
    ensures
        forall|i: int| 0 <= i < ns.len() ==> canon_node(#[trigger] ns[i]),
        forall|i: int| 1 <= i < ns.len() && #[trigger] ns[i] is Text ==> !(ns[i - 1] is Text),
    decreases ns.len(),
{
    if ns.len() > 0 {
        lemma_canon_nodes_index(ns.drop_last());
        assert forall|i: int| 0 <= i < ns.len() implies canon_node(#[trigger] ns[i]) by {
            if i < ns.len() - 1 {
                assert(ns[i] == ns.drop_last()[i]);
            }
        }
        assert forall|i: int| 1 <= i < ns.len() && #[trigger] ns[i] is Text implies !(ns[i - 1] is Text) by {
            if i < ns.len() - 1 {
                assert(ns[i] == ns.drop_last()[i]);
                assert(ns[i - 1] == ns.drop_last()[i - 1]);
            }
        }
    }
}

proof fn lemma_canon_nodes_from_index(ns: Seq<SHtml>)
    requires
        forall|i: int| 0 <= i < ns.len() ==> canon_node(#[trigger] ns[i]),
        forall|i: int| 1 <= i < ns.len() && #[trigger] ns[i] is Text ==> !(ns[i - 1] is Text),
    ensures
        canon_nodes(ns),
    decreases ns.len(),
{
    if ns.len() > 0 {
        let d = ns.drop_last();
        assert forall|i: int| 1 <= i < d.len() && #[trigger] d[i] is Text implies !(d[i - 1] is Text) by {
            assert(d[i] == ns[i]);
            assert(d[i - 1] == ns[i - 1]);
        }
        assert forall|i: int| 0 <= i < d.len() implies canon_node(#[trigger] d[i]) by {
            assert(d[i] == ns[i]);
        }
        lemma_canon_nodes_from_index(d);
        if ns.len() > 1 && ns[ns.len() - 1] is Text {
            assert(!(ns[ns.len() - 2] is Text));
        }
    }
}

proof fn lemma_serialize_nodes_cons(ns: Seq<SHtml>, jsx: bool)
    requires
        ns.len() > 0,
    ensures
        spec_serialize_nodes(ns, jsx) == spec_serialize_node(ns[0], jsx) + spec_serialize_nodes(ns.drop_first(), jsx),
    decreases ns.len(),
{
    if ns.len() == 1 {
        assert(ns.drop_last().len() == 0);
        assert(ns.drop_first().len() == 0);
        assert(spec_serialize_nodes(ns.drop_first(), jsx) == Seq::<char>::empty());
        assert(spec_serialize_nodes(ns.drop_last(), jsx) == Seq::<char>::empty());
        assert(spec_serialize_nodes(ns, jsx) =~= spec_serialize_node(ns[0], jsx) + spec_serialize_nodes(ns.drop_first(), jsx));
    } else {
        lemma_serialize_nodes_cons(ns.drop_last(), jsx);
        assert(ns.drop_last().drop_first() =~= ns.drop_first().drop_last());
        let l = ns.drop_first();
        assert(l[l.len() - 1] == ns[ns.len() - 1]);
        assert(spec_serialize_nodes(ns, jsx) =~= spec_serialize_node(ns[0], jsx) + spec_serialize_nodes(ns.drop_first(), jsx));
    }
}

/// `a + b` written at `k` is `a` at `k` and `b` right after it.
proof fn lemma_occurs_split(s: Seq<char>, a: Seq<char>, b: Seq<char>, k: int)
    requires
        occurs_at(s, a + b, k),
    ensures
        occurs_at(s, a, k),
        occurs_at(s, b, k + a.len()),
{
    assert(s.subrange(k, k + a.len()) =~= a) by {
        assert forall|i: int| 0 <= i < a.len() implies s.subrange(k, k + a.len())[i] == a[i] by {
            assert(s.subrange(k, k + (a + b).len())[i] == (a + b)[i]);
        }
    }
    assert(s.subrange(k + a.len(), k + a.len() + b.len()) =~= b) by {
        assert forall|i: int| 0 <= i < b.len() implies s.subrange(k + a.len(), k + a.len() + b.len())[i] == b[i] by {
            assert(s.subrange(k, k + (a + b).len())[a.len() + i] == (a + b)[a.len() + i]);
        }
    }
}

proof fn lemma_occurs_char(s: Seq<char>, w: Seq<char>, k: int, i: int)
    requires
        occurs_at(s, w, k),
        0 <= i < w.len(),
    ensures
        s[k + i] == w[i],
{
    assert(s.subrange(k, k + w.len())[i] == w[i]);
}


/// What may follow a text node: the end, a tag, a comment or declaration, or in JSX a
/// comment.
pub open spec fn text_stops(s: Seq<char>, e: int, jsx: bool) -> bool {
    ||| e == s.len()
    ||| (s[e] == '<' && e + 1 < s.len() && (is_ascii_alpha(s[e + 1]) || s[e + 1] == '/' || s[e + 1] == '!'))
    ||| (jsx && occurs_at(s, "{/*"@, e))
}

proof fn lemma_text_end_run(s: Seq<char>, e: int, end: int, jsx: bool)
    requires
        0 <= e <= end <= s.len(),
        forall|x: int| e <= x < end ==> #[trigger] s[x] != '<' && s[x] != '{',
        text_stops(s, end, jsx),
    ensures
        text_end(s, e, jsx) == end,
    decreases end - e,
{
    reveal_strlit("{/*");
    if e < end {
        assert(!occurs_at(s, "{/*"@, e)) by {
            if occurs_at(s, "{/*"@, e) {
                assert(s.subrange(e, e + 3)[0] == s[e]);
            }
        }
        lemma_text_end_run(s, e + 1, end, jsx);
    }
}

proof fn lemma_find_first(s: Seq<char>, p: Seq<char>, i: int, e: int)
    requires
        0 <= i <= e,
        occurs_at(s, p, e),
        forall|j: int| i <= j < e ==> !occurs_at(s, p, j),
    ensures
        find_from(s, p, i) == Some(e),
    decreases e - i,
{
    if i < e {
        lemma_find_first(s, p, i + 1, e);
    }
}

/// A comment's text between its padding spaces is trimmed back to itself.
proof fn lemma_trim_padded(t: Seq<char>)
    requires
        canon_comment(t),
    ensures
        trim(" "@ + t + " "@) == t,
{
    reveal_strlit(" ");
    let x = " "@ + t + " "@;
    assert(x.len() == t.len() + 2);
    assert(x[0] == ' ');
    assert(x[1] == t[0]);
    assert(x[x.len() - 1] == ' ');
    assert(x[x.len() - 2] == t[t.len() - 1]);
    lemma_ws_run_end(x, 1);
    lemma_ws_run_end(x, 0);
    assert(ws_run_end(x, 1) == 1);
    assert(ws_run_end(x, 0) == 1);
    lemma_ws_run_start(x, x.len() as int);
    lemma_ws_run_start(x, x.len() - 1);
    assert(ws_run_start(x, x.len() - 1) == x.len() - 1);
    assert(ws_run_start(x, x.len() as int) == x.len() - 1);
    assert(x.subrange(1, x.len() - 1) =~= t);
}

/// A comment written in the given mode at `k` is read back.
proof fn lemma_comment_read(s: Seq<char>, k: int, t: Seq<char>, jsx: bool)
    requires
        0 <= k,
        canon_comment(t),
        occurs_at(s, spec_serialize_node(SHtml::Comment(t), jsx), k),
    ensures
        single(s, k, jsx) == Step::Next(SHtml::Comment(t), k + spec_serialize_node(SHtml::Comment(t), jsx).len()),
{
    reveal_strlit("<!-- ");
    reveal_strlit(" -->");
    reveal_strlit("{/* ");
    reveal_strlit(" */}");
    reveal_strlit("<!--");
    reveal_strlit("{/*");
    reveal_strlit("-->");
    reveal_strlit("*/}");
    reveal_strlit(" ");
    let w = spec_serialize_node(SHtml::Comment(t), jsx);
    let open_ = if jsx { "{/*"@ } else { "<!--"@ };
    let close = if jsx { "*/}"@ } else { "-->"@ };
    let after = k + open_.len();
    assert(w =~= open_ + (" "@ + t + " "@) + close) by {
        if jsx {
            assert("{/* "@ =~= "{/*"@ + " "@);
            assert(" */}"@ =~= " "@ + "*/}"@);
        } else {
            assert("<!-- "@ =~= "<!--"@ + " "@);
            assert(" -->"@ =~= " "@ + "-->"@);
        }
    }
    let mid = " "@ + t + " "@;
    lemma_occurs_split(s, open_ + mid, close, k);
    lemma_occurs_split(s, open_, mid, k);
    let e = after + mid.len();
    lemma_occurs_char(s, w, k, 0);
    lemma_ws_run_end(s, k);
    assert(!is_ws(s[k]));
    assert(ws_run_end(s, k) == k);
    assert forall|j: int| after <= j < e implies !occurs_at(s, close, j) by {
        if occurs_at(s, close, j) {
            lemma_occurs_char(s, close, j, 0);
            lemma_occurs_char(s, close, j, 1);
            lemma_occurs_char(s, close, j, 2);
            if j == after {
                lemma_occurs_char(s, mid, after, 0);
            } else if j + 3 <= e - 1 {
                let o = j - after - 1;
                assert(t.subrange(o, o + 3) =~= close) by {
                    assert forall|i: int| 0 <= i < 3 implies t.subrange(o, o + 3)[i] == close[i] by {
                        lemma_occurs_char(s, mid, after, 1 + o + i);
                    }
                }
                assert(occurs_at(t, close, o));
            } else {
                let z = e - 1;
                lemma_occurs_char(s, mid, after, mid.len() - 1);
                assert(s[z] == ' ');
                assert(j <= z < j + 3);
                lemma_occurs_char(s, close, j, z - j);
            }
        }
    }
    lemma_find_first(s, close, after, e);
    lemma_trim_padded(t);
    assert(s.subrange(after, e) =~= mid) by {
        assert forall|i: int| 0 <= i < mid.len() implies s.subrange(after, e)[i] == mid[i] by {
            lemma_occurs_char(s, mid, after, i);
        }
    }
    assert(open_.len() == if jsx { 3int } else { 4int });
    if jsx {
        assert(occurs_at(s, "{/*"@, k));
    } else {
        assert(occurs_at(s, "<!--"@, k));
    }
}


proof fn lemma_tag_stop_run(s: Seq<char>, j: int, e: int)
    requires
        0 <= j <= e <= s.len(),
        forall|i: int| j <= i < e ==> !tag_stop(#[trigger] s[i]),
        e < s.len() ==> tag_stop(s[e]),
    ensures
        tag_stop_from(s, j) == e,
    decreases e - j,
{
    if j < e {
        lemma_tag_stop_run(s, j + 1, e);
    }
}

/// How a canonical node's text begins.
proof fn lemma_node_head(n: SHtml, jsx: bool)
    requires
        canon_node(n),
    ensures
        ({
            let w = spec_serialize_node(n, jsx);
            &&& w.len() > 1 || (n is Text && w.len() > 0)
            &&& !is_ws(w[0])
            &&& w[0] == '<' ==> w[1] != '/'
            &&& n is Text ==> w[0] != '<' && w[0] != '{'
            &&& !(n is Text) ==> ((w[0] == '<' && (is_ascii_alpha(w[1]) || w[1] == '!')) || (jsx && occurs_at(w, "{/*"@, 0)))
        }),
{
    reveal_strlit("<!-- ");
    reveal_strlit(" -->");
    reveal_strlit("{/* ");
    reveal_strlit(" */}");
    reveal_strlit("{/*");
    reveal_strlit("<");
    reveal_strlit(">");
    reveal_strlit(" />");
    reveal_strlit("</");
    let w = spec_serialize_node(n, jsx);
    match n {
        SHtml::Text(t) => {},
        SHtml::Comment(t) => {
            if jsx {
                assert(w.subrange(0, 3) =~= "{/*"@);
            } else {
                assert(w[1] == '!');
            }
        },
        SHtml::Element { tag, attrs, children, void } => {
            assert(w[0] == '<');
            assert(w[1] == tag[0]);
        },
    }
}

/// A node other than text, written at `e`, stops a text before it.
proof fn lemma_next_stops(s: Seq<char>, e: int, n: SHtml, jsx: bool)
    requires
        0 <= e,
        canon_node(n),
        !(n is Text),
        occurs_at(s, spec_serialize_node(n, jsx), e),
    ensures
        text_stops(s, e, jsx),
{
    lemma_node_head(n, jsx);
    let w = spec_serialize_node(n, jsx);
    lemma_occurs_char(s, w, e, 0);
    lemma_occurs_char(s, w, e, 1);
    if jsx && occurs_at(w, "{/*"@, 0) {
        reveal_strlit("{/*");
        assert(s.subrange(e, e + 3) =~= "{/*"@) by {
            assert forall|i: int| 0 <= i < 3 implies s.subrange(e, e + 3)[i] == "{/*"@[i] by {
                lemma_occurs_char(s, w, e, i);
                assert(w.subrange(0, 3)[i] == w[i]);
            }
        }
    }
}

/// A node written at `k` is read back by `single`; a text needs what follows it to end
/// it.
proof fn lemma_node_read(s: Seq<char>, k: int, n: SHtml, jsx: bool)
    requires
        0 <= k,
        canon_node(n),
        occurs_at(s, spec_serialize_node(n, jsx), k),
        n is Text ==> text_stops(s, k + spec_serialize_node(n, jsx).len(), jsx),
    ensures
        single(s, k, jsx) == Step::Next(n, k + spec_serialize_node(n, jsx).len()),
    decreases n, 2nat,
{
    reveal_strlit("<!--");
    reveal_strlit("{/*");
    reveal_strlit("<");
    reveal_strlit(">");
    reveal_strlit(" />");
    reveal_strlit("</");
    let w = spec_serialize_node(n, jsx);
    let end = k + w.len();
    lemma_node_head(n, jsx);
    lemma_occurs_char(s, w, k, 0);
    lemma_ws_run_end(s, k);
    assert(ws_run_end(s, k) == k);
    match n {
        SHtml::Text(t) => {
            assert forall|x: int| k <= x < end implies #[trigger] s[x] != '<' && s[x] != '{' by {
                lemma_occurs_char(s, w, k, x - k);
            }
            lemma_text_end_run(s, k, end, jsx);
            assert(!occurs_at(s, "{/*"@, k)) by {
                if occurs_at(s, "{/*"@, k) {
                    assert(s.subrange(k, k + 3)[0] == s[k]);
                }
            }
            assert(!occurs_at(s, "<!--"@, k)) by {
                if occurs_at(s, "<!--"@, k) {
                    assert(s.subrange(k, k + 4)[0] == s[k]);
                }
            }
            assert(s.subrange(k, end) =~= t) by {
                assert forall|i: int| 0 <= i < t.len() implies s.subrange(k, end)[i] == t[i] by {
                    lemma_occurs_char(s, w, k, i);
                }
            }
        },
        SHtml::Comment(t) => {
            lemma_comment_read(s, k, t, jsx);
        },
        SHtml::Element { .. } => {
            lemma_occurs_char(s, w, k, 1);
            assert(!occurs_at(s, "{/*"@, k)) by {
                if occurs_at(s, "{/*"@, k) {
                    assert(s.subrange(k, k + 3)[0] == s[k]);
                }
            }
            assert(!occurs_at(s, "<!--"@, k)) by {
                if occurs_at(s, "<!--"@, k) {
                    assert(s.subrange(k, k + 4)[1] == s[k + 1]);
                }
            }
            lemma_elem_read(s, k, n, jsx);
        },
    }
}

/// An element written at `k` is read back by `elem`.
#[verifier::rlimit(50)]
#[verifier::spinoff_prover]
proof fn lemma_elem_read(s: Seq<char>, k: int, n: SHtml, jsx: bool)
    requires
        0 <= k,
        n is Element,
        canon_node(n),
        occurs_at(s, spec_serialize_node(n, jsx), k),
    ensures
        elem(s, k, jsx) == Step::Next(n, k + spec_serialize_node(n, jsx).len()),
    decreases n, 1nat,
{
    reveal_strlit("<");
    reveal_strlit(">");
    reveal_strlit(" />");
    reveal_strlit("</");
    let w = spec_serialize_node(n, jsx);
    let end = k + w.len();
    let tag = n->tag;
    let attrs = n->attrs;
    let children = n->children;
    let void = n->void;
    let a = spec_serialize_attrs(attrs, jsx);
    let tail = if void {
        if jsx { " />"@ } else { ">"@ }
    } else {
        ">"@ + spec_serialize_nodes(children, jsx) + "</"@ + tag + ">"@
    };
    assert(w =~= "<"@ + tag + a + tail);
    lemma_occurs_split(s, "<"@ + tag + a, tail, k);
    lemma_occurs_split(s, "<"@ + tag, a, k);
    lemma_occurs_split(s, "<"@, tag, k);
    let te = k + 1 + tag.len();
    let ae = te + a.len();
    lemma_occurs_char(s, w, k, 1);
    // The tag name ends where the attributes or the close begin.
    lemma_occurs_char(s, tail, ae, 0);
    assert forall|i: int| k + 1 <= i < te implies !tag_stop(#[trigger] s[i]) by {
        lemma_occurs_char(s, tag, k + 1, i - k - 1);
    }
    if a.len() > 0 {
        lemma_serialize_attrs_cons(attrs, jsx);
        let a0 = attrs[0];
        assert(canon_attr(a0));
        let d0 = if jsx { a0.0 } else { spec_canonical_to_html_attr(a0.0) };
        reveal_strlit(" ");
        reveal_strlit("=\"");
        assert(spec_attr_out(a0.0, a0.1, jsx)[0] == ' ') by {
            if a0.1.len() == 0 {
                assert(spec_attr_out(a0.0, a0.1, jsx) =~= " "@ + d0);
            } else {
                assert(spec_attr_out(a0.0, a0.1, jsx) =~= " "@ + d0 + "=\""@ + a0.1 + "\""@);
            }
        }
        lemma_occurs_char(s, a, te, 0);
    }
    lemma_tag_stop_run(s, k + 1, te);
    assert(s.subrange(k + 1, te) =~= tag) by {
        assert forall|i: int| 0 <= i < tag.len() implies s.subrange(k + 1, te)[i] == tag[i] by {
            lemma_occurs_char(s, tag, k + 1, i);
        }
    }
    // The attributes are read back up to the close.
    if void && jsx {
        lemma_occurs_char(s, tail, ae, 1);
        lemma_occurs_char(s, tail, ae, 2);
    }
    assert(attrs_close(s, ae));
    lemma_attrs_read(s, te, attrs, jsx);
    let r = attrs_stop(s, ae);
    lemma_ws_run_end(s, r);
    assert(ws_run_end(s, r) == r);
    if !void {
        let cs = spec_serialize_nodes(children, jsx);
        let close = "</"@ + tag + ">"@;
        assert(tail =~= ">"@ + (cs + close));
        lemma_occurs_split(s, ">"@, cs + close, ae);
        lemma_kids_read(s, ae + 1, tag, children, jsx);
        assert(!(r + 1 < s.len() && s[r] == '/'));
    }
    if void {
    assert(children =~= Seq::<SHtml>::empty());
    }
    assert(elem(s, k, jsx) == Step::Next(n, end));
}

/// The children of an element and its closing tag, written at `j`, are read back.
proof fn lemma_kids_read(s: Seq<char>, j: int, tag: Seq<char>, ns: Seq<SHtml>, jsx: bool)
    requires
        0 <= j,
        canon_tag(tag),
        canon_nodes(ns),
        occurs_at(s, spec_serialize_nodes(ns, jsx) + ("</"@ + tag + ">"@), j),
    ensures
        kids(s, j, tag, jsx) == Kids::Got(ns, j + spec_serialize_nodes(ns, jsx).len() + tag.len() + 3),
    decreases ns, 0nat,
{
    reveal_strlit("</");
    reveal_strlit(">");
    let cs = spec_serialize_nodes(ns, jsx);
    let close = "</"@ + tag + ">"@;
    lemma_occurs_split(s, cs, close, j);
    lemma_ws_run_end(s, j);
    if ns.len() == 0 {
        assert(cs.len() == 0);
        lemma_occurs_char(s, close, j, 0);
        assert(ws_run_end(s, j) == j);
        assert(ns =~= Seq::<SHtml>::empty());
    } else {
        lemma_canon_nodes_index(ns);
        lemma_serialize_nodes_cons(ns, jsx);
        let n0 = ns[0];
        let rest = ns.drop_first();
        let w0 = spec_serialize_node(n0, jsx);
        let wr = spec_serialize_nodes(rest, jsx);
        assert(cs + close =~= w0 + (wr + close));
        lemma_occurs_split(s, w0, wr + close, j);
        lemma_node_head(n0, jsx);
        lemma_occurs_char(s, w0, j, 0);
        assert(ws_run_end(s, j) == j);
        assert(!occurs_at(s, close, j)) by {
            if occurs_at(s, close, j) {
                lemma_occurs_char(s, close, j, 0);
                lemma_occurs_char(s, close, j, 1);
                lemma_occurs_char(s, w0, j, 1);
            }
        }
        assert(!occurs_at(s, "</"@, j)) by {
            if occurs_at(s, "</"@, j) {
                assert(s.subrange(j, j + 2)[0] == s[j]);
                assert(s.subrange(j, j + 2)[1] == s[j + 1]);
                lemma_occurs_char(s, w0, j, 1);
            }
        }
        let e0 = j + w0.len();
        assert forall|i: int| 0 <= i < rest.len() implies canon_node(#[trigger] rest[i]) by {
            assert(rest[i] == ns[i + 1]);
        }
        assert forall|i: int| 1 <= i < rest.len() && #[trigger] rest[i] is Text implies !(rest[i - 1] is Text) by {
            assert(rest[i] == ns[i + 1]);
            assert(rest[i - 1] == ns[i]);
        }
        lemma_canon_nodes_from_index(rest);
        lemma_occurs_split(s, wr, close, e0);
        if n0 is Text {
            if rest.len() > 0 {
                lemma_serialize_nodes_cons(rest, jsx);
                assert(!(rest[0] is Text)) by {
                    assert(rest[0] == ns[1]);
                }
                lemma_occurs_split(s, spec_serialize_node(rest[0], jsx), spec_serialize_nodes(rest.drop_first(), jsx), e0);
                lemma_next_stops(s, e0, rest[0], jsx);
            } else {
                assert(wr.len() == 0);
                lemma_occurs_char(s, close, e0, 0);
                lemma_occurs_char(s, close, e0, 1);
            }
        }
        lemma_node_read(s, j, n0, jsx);
        lemma_kids_read(s, e0, tag, rest, jsx);
        assert(j < e0 <= s.len());
        assert(seq![n0] + rest =~= ns);
    }
}

/// A whole canonical fragment is read back.
proof fn lemma_read_all(s: Seq<char>, i: int, ns: Seq<SHtml>, jsx: bool)
    requires
        0 <= i,
        canon_nodes(ns),
        s.len() == i + spec_serialize_nodes(ns, jsx).len(),
        occurs_at(s, spec_serialize_nodes(ns, jsx), i),
    ensures
        read_nodes(s, i, jsx) == Some(ns),
    decreases ns,
{
    lemma_ws_run_end(s, i);
    if ns.len() == 0 {
        assert(ws_run_end(s, i) == i);
        assert(ns =~= Seq::<SHtml>::empty());
    } else {
        lemma_canon_nodes_index(ns);
        lemma_serialize_nodes_cons(ns, jsx);
        let n0 = ns[0];
        let rest = ns.drop_first();
        let w0 = spec_serialize_node(n0, jsx);
        let wr = spec_serialize_nodes(rest, jsx);
        lemma_occurs_split(s, w0, wr, i);
        lemma_node_head(n0, jsx);
        lemma_occurs_char(s, w0, i, 0);
        assert(ws_run_end(s, i) == i);
        let e0 = i + w0.len();
        assert forall|x: int| 0 <= x < rest.len() implies canon_node(#[trigger] rest[x]) by {
            assert(rest[x] == ns[x + 1]);
        }
        assert forall|x: int| 1 <= x < rest.len() && #[trigger] rest[x] is Text implies !(rest[x - 1] is Text) by {
            assert(rest[x] == ns[x + 1]);
            assert(rest[x - 1] == ns[x]);
        }
        lemma_canon_nodes_from_index(rest);
        if n0 is Text && rest.len() > 0 {
            lemma_serialize_nodes_cons(rest, jsx);
            assert(!(rest[0] is Text)) by {
                assert(rest[0] == ns[1]);
            }
            lemma_occurs_split(s, spec_serialize_node(rest[0], jsx), spec_serialize_nodes(rest.drop_first(), jsx), e0);
            lemma_next_stops(s, e0, rest[0], jsx);
        }
        lemma_node_read(s, i, n0, jsx);
        lemma_read_all(s, e0, rest, jsx);
        assert(seq![n0] + rest =~= ns);
    }
}

// ------------------------------------------------------------------
// The law
// ------------------------------------------------------------------

/// Canonical HTML survives the trip to JSX and back: for a canonical fragment (text
/// without `<` or `{`, trimmed comments, elements with lower-case tag and attribute
/// names other than `style`, values without `"`, void elements written as `<tag ...>`,
/// others closed by `</tag>`, no node starting with whitespace, no two texts side by
/// side), `html_to_jsx` gives its JSX form and `jsx_to_html` of that gives the HTML back.
pub proof fn law_html_jsx_round_trip(ns: Seq<SHtml>)
    requires
        canon_nodes(ns),
    ensures
        spec_html_to_jsx(spec_serialize_nodes(ns, false)) == Some(spec_serialize_nodes(ns, true)),
        spec_jsx_to_html(spec_serialize_nodes(ns, true)) == Some(spec_serialize_nodes(ns, false)),
{
    let h = spec_serialize_nodes(ns, false);
    let j = spec_serialize_nodes(ns, true);
    assert(h.subrange(0, h.len() as int) =~= h);
    assert(j.subrange(0, j.len() as int) =~= j);
    lemma_read_all(h, 0, ns, false);
    lemma_read_all(j, 0, ns, true);
}

} // verus!
