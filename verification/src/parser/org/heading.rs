//! Org headings: stars, title and tags.
use vstd::prelude::*;
use crate::text::{
    ends_with_str, from_chars, has_prefix, has_suffix, is_ws, join, lemma_ws_run_start, occurs_at,
    rfind, rfind_before, rfind_seq, slice, split, split_chars, to_chars, trim, trim_chars, trim_end,
    trim_end_chars, views, ws_run_start,
};
use crate::util::date_law::{lemma_split_cons, lemma_split_one};

verus! {

/// The end of the run of `c` starting at `i`.
pub open spec fn char_run(s: Seq<char>, c: char, i: int) -> int
    decreases s.len() - i,
{
    if 0 <= i < s.len() && s[i] == c {
        char_run(s, c, i + 1)
    } else {
        i
    }
}

pub proof fn lemma_char_run(s: Seq<char>, c: char, i: int)
    requires
        0 <= i <= s.len(),
    ensures
        i <= char_run(s, c, i) <= s.len(),
        forall|k: int| i <= k < char_run(s, c, i) ==> s[k] == c,
        char_run(s, c, i) < s.len() ==> s[char_run(s, c, i)] != c,
    decreases s.len() - i,
{
    if i < s.len() && s[i] == c {
        lemma_char_run(s, c, i + 1);
    }
}

/// Where the tag part of a heading starts: the last `"  :"`, else the last `"\t:"`.
pub open spec fn wide_tag_sep(text: Seq<char>) -> Option<int> {
    match rfind(text, "  :"@) {
        Some(p) => Some(p),
        None => rfind(text, "\t:"@),
    }
}

/// The texts `split_tags` does not take, since its tag range would run backwards: the
/// text ends with the separator's own colon.
pub open spec fn tags_run_backwards(text: Seq<char>) -> bool {
    has_suffix(text, ":"@) && match wide_tag_sep(text) {
        Some(p) => text.len() < p + 4,
        None => match rfind(text, " :"@) {
            Some(p) => p + 2 == text.len(),
            None => false,
        },
    }
}

/// A heading title split from its trailing `:tag1:tag2:` group.
pub open spec fn spec_split_tags(text: Seq<char>) -> (Seq<char>, Seq<Seq<char>>) {
    if has_suffix(text, ":"@) {
        match wide_tag_sep(text) {
            Some(p) => {
                let tags_str = text.subrange(p + 2, text.len() as int);
                let inner = tags_str.subrange(1, tags_str.len() - 1);
                (trim_end(text.subrange(0, p)), split(inner, ':'))
            },
            None => match rfind(text, " :"@) {
                Some(p) => {
                    let tags_str = text.subrange(p + 1, text.len() as int);
                    if has_suffix(tags_str, ":"@) && has_prefix(tags_str, ":"@) {
                        let inner = tags_str.subrange(1, tags_str.len() - 1);
                        (trim_end(text.subrange(0, p)), split(inner, ':'))
                    } else {
                        (text, Seq::empty())
                    }
                },
                None => (text, Seq::empty()),
            },
        }
    } else {
        (text, Seq::empty())
    }
}

/// The text after a heading's stars and space, trimmed, when `line` is a heading.
pub open spec fn heading_text(line: Seq<char>) -> Option<(int, Seq<char>)> {
    let t = trim(line);
    let n = char_run(t, '*', 0);
    if n == 0 || n > u32::MAX {
        None
    } else {
        let rest = t.subrange(n, t.len() as int);
        if !(rest.len() > 0 && rest[0] == ' ') {
            None
        } else {
            Some((n, trim(rest.subrange(1, rest.len() as int))))
        }
    }
}

/// The lines `parse_heading` does not take: headings whose tag split would run backwards.
pub open spec fn heading_refused(line: Seq<char>) -> bool {
    match heading_text(line) {
        Some((_, text)) => tags_run_backwards(text),
        None => false,
    }
}

/// A heading line as (depth, title, tags).
pub open spec fn spec_parse_heading(line: Seq<char>) -> Option<(u32, Seq<char>, Seq<Seq<char>>)> {
    match heading_text(line) {
        Some((n, text)) => {
            let (h, tags) = spec_split_tags(text);
            Some((n as u32, h, tags))
        },
        None => None,
    }
}

/// Splits a heading title from its trailing tags.
pub fn split_tags(text: &str) -> (r: (String, Vec<String>))
    requires
        !tags_run_backwards(text@),
    ensures
        r.0@ == spec_split_tags(text@).0,
        r.1@.map_values(|t: String| t@) == spec_split_tags(text@).1,
{
    let (h, tags) = split_tags_chars(&to_chars(text));
    (from_chars(&h), strings_of(&tags))
}

/// The strings holding `v`'s character vectors.
pub fn strings_of(v: &Vec<Vec<char>>) -> (r: Vec<String>)
    ensures
        r@.map_values(|t: String| t@) == views(v@),
{
    let mut r: Vec<String> = Vec::new();
    let mut i: usize = 0;
    while i < v.len()
        invariant
            i <= v@.len(),
            r@.map_values(|t: String| t@) == views(v@).take(i as int),
        decreases v.len() - i,
    {
        let s = from_chars(&v[i]);
        let ghost old_r = r@;
        r.push(s);
        assert(r@.map_values(|t: String| t@) =~= old_r.map_values(|t: String| t@).push(s@));
        assert(views(v@).take(i + 1) =~= views(v@).take(i as int).push(v@[i as int]@));
        i += 1;
    }
    assert(views(v@).take(v.len() as int) =~= views(v@));
    r
}

pub fn split_tags_chars(text: &[char]) -> (r: (Vec<char>, Vec<Vec<char>>))
    requires
        !tags_run_backwards(text@),
    ensures
        r.0@ == spec_split_tags(text@).0,
        views(r.1@) == spec_split_tags(text@).1,
{
    let colon = to_chars(":");
    if crate::text::ends_with(text, &colon) {
        let wide = wide_sep(text);
        proof {
            reveal_strlit("  :");
            reveal_strlit("\t:");
            reveal_strlit(" :");
            reveal_strlit(":");
        }
        match wide {
            Some(p) => {
                proof {
                    lemma_rfind(text@, "  :"@);
                    lemma_rfind(text@, "\t:"@);
                }
                assert(p + 2 <= text.len());
                let tags_str = slice(text, p + 2, text.len());
                let inner = slice(&tags_str, 1, tags_str.len() - 1);
                let head = trim_end_chars(&slice(text, 0, p));
                return (head, split_chars(&inner, ':'));
            },
            None => {
                match rfind_seq(text, &to_chars(" :")) {
                    Some(p) => {
                        proof {
                            lemma_rfind(text@, " :"@);
                        }
                        assert(p + 2 <= text.len());
                        let tags_str = slice(text, p + 1, text.len());
                        if crate::text::ends_with(&tags_str, &colon) && crate::text::starts_with(&tags_str, &colon) {
                            let inner = slice(&tags_str, 1, tags_str.len() - 1);
                            let head = trim_end_chars(&slice(text, 0, p));
                            return (head, split_chars(&inner, ':'));
                        }
                    },
                    None => {},
                }
            },
        }
    }
    (slice(text, 0, text.len()), Vec::new())
}

/// Where the tag part of a heading starts.
fn wide_sep(text: &[char]) -> (r: Option<usize>)
    ensures
        r matches Some(p) ==> wide_tag_sep(text@) == Some(p as int) && p + 2 <= text@.len(),
        r is None ==> wide_tag_sep(text@) is None,
{
    proof {
        reveal_strlit("  :");
        reveal_strlit("\t:");
    }
    match rfind_seq(text, &to_chars("  :")) {
        Some(p) => Some(p),
        None => match rfind_seq(text, &to_chars("\t:")) {
            Some(p) => Some(p),
            None => None,
        },
    }
}

/// Facts about `rfind`: a found index is in range and starts an occurrence.
pub proof fn lemma_rfind(s: Seq<char>, p: Seq<char>)
    ensures
        rfind(s, p) matches Some(k) ==> 0 <= k && k + p.len() <= s.len(),
{
    lemma_rfind_before(s, p, s.len() + 1int);
}

proof fn lemma_rfind_before(s: Seq<char>, p: Seq<char>, j: int)
    ensures
        crate::text::rfind_before(s, p, j) matches Some(k) ==> 0 <= k < j && k + p.len() <= s.len(),
    decreases j,
{
    if j > 0 && !crate::text::occurs_at(s, p, j - 1) {
        lemma_rfind_before(s, p, j - 1);
    }
}

/// Parses an Org heading line into (depth, title, tags).
pub fn parse_heading(line: &str) -> (r: Option<(u32, String, Vec<String>)>)
    requires
        !heading_refused(line@),
    ensures
        r matches Some((d, h, tags)) ==> spec_parse_heading(line@) == Some(
            (d, h@, tags@.map_values(|t: String| t@)),
        ),
        r is None ==> spec_parse_heading(line@) is None,
{
    match parse_heading_chars(&to_chars(line)) {
        Some((d, h, tags)) => Some((d, from_chars(&h), strings_of(&tags))),
        None => None,
    }
}

pub fn parse_heading_chars(line: &[char]) -> (r: Option<(u32, Vec<char>, Vec<Vec<char>>)>)
    requires
        !heading_refused(line@),
    ensures
        r matches Some((d, h, tags)) ==> spec_parse_heading(line@) == Some((d, h@, views(tags@))),
        r is None ==> spec_parse_heading(line@) is None,
{
    let t = trim_chars(line);
    proof {
        lemma_char_run(t@, '*', 0);
    }
    let mut n: usize = 0;
    while n < t.len() && t[n] == '*'
        invariant
            n <= t@.len(),
            char_run(t@, '*', 0) == char_run(t@, '*', n as int),
        decreases t.len() - n,
    {
        n += 1;
    }
    if n == 0 || n > 0xffff_ffff {
        return None;
    }
    let rest = slice(&t, n, t.len());
    if !(rest.len() > 0 && rest[0] == ' ') {
        return None;
    }
    let text = trim_chars(&slice(&rest, 1, rest.len()));
    let (h, tags) = split_tags_chars(&text);
    Some((n as u32, h, tags))
}

/// Sections tagged `noexport` or `skip` are left out.
pub open spec fn spec_should_skip_section(tags: Seq<Seq<char>>) -> bool {
    tags.contains("noexport"@) || tags.contains("skip"@)
}

pub fn should_skip_section(tags: &Vec<String>) -> (r: bool)
    ensures
        r == spec_should_skip_section(tags@.map_values(|t: String| t@)),
{
    let ghost tv = tags@.map_values(|t: String| t@);
    let mut i: usize = 0;
    while i < tags.len()
        invariant
            i <= tags@.len(),
            tv == tags@.map_values(|t: String| t@),
            forall|j: int| 0 <= j < i ==> tv[j] != "noexport"@ && tv[j] != "skip"@,
        decreases tags.len() - i,
    {
        let c = to_chars(tags[i].as_str());
        if crate::text::eq_str(&c, "noexport") || crate::text::eq_str(&c, "skip") {
            assert(tv[i as int] == c@);
            return true;
        }
        i += 1;
    }
    assert(!tv.contains("noexport"@));
    assert(!tv.contains("skip"@));
    false
}

/// The same test on tags held as character vectors.
pub fn should_skip_chars(tags: &Vec<Vec<char>>) -> (r: bool)
    ensures
        r == spec_should_skip_section(views(tags@)),
{
    let ghost tv = views(tags@);
    let mut i: usize = 0;
    while i < tags.len()
        invariant
            i <= tags@.len(),
            tv == views(tags@),
            forall|j: int| 0 <= j < i ==> tv[j] != "noexport"@ && tv[j] != "skip"@,
        decreases tags.len() - i,
    {
        if crate::text::eq_str(&tags[i], "noexport") || crate::text::eq_str(&tags[i], "skip") {
            assert(tv[i as int] == tags@[i as int]@);
            return true;
        }
        i += 1;
    }
    assert(!tv.contains("noexport"@));
    assert(!tv.contains("skip"@));
    false
}

/// Whether `parse_heading` refuses `line`.
pub fn is_refused_heading(line: &[char]) -> (r: bool)
    ensures
        r == heading_refused(line@),
{
    let t = trim_chars(line);
    proof {
        lemma_char_run(t@, '*', 0);
    }
    let mut n: usize = 0;
    while n < t.len() && t[n] == '*'
        invariant
            n <= t@.len(),
            char_run(t@, '*', 0) == char_run(t@, '*', n as int),
        decreases t.len() - n,
    {
        n += 1;
    }
    if n == 0 || n > 0xffff_ffff {
        return false;
    }
    let rest = slice(&t, n, t.len());
    if !(rest.len() > 0 && rest[0] == ' ') {
        return false;
    }
    let text = trim_chars(&slice(&rest, 1, rest.len()));
    if !ends_with_str(&text, ":") {
        return false;
    }
    let wide = wide_sep(&text);
    proof {
        lemma_rfind(text@, "  :"@);
        lemma_rfind(text@, "\t:"@);
        lemma_rfind(text@, " :"@);
        reveal_strlit("  :");
        reveal_strlit("\t:");
        reveal_strlit(" :");
    }
    match wide {
        Some(p) => {
            assert(p + 2 <= text.len());
            text.len() - p < 4
        },
        None => match rfind_seq(&text, &to_chars(" :")) {
            Some(p) => {
                assert(p + 2 <= text.len());
                p + 2 == text.len()
            },
            None => false,
        },
    }
}


// ------------------------------------------------------------------
// The tag group of a heading
// ------------------------------------------------------------------

/// A tag as a heading's tag group writes it: not empty, without `:` or whitespace.
pub open spec fn tag_word(t: Seq<char>) -> bool {
    t.len() > 0 && forall|i: int| 0 <= i < t.len() ==> t[i] != ':' && !is_ws(#[trigger] t[i])
}

proof fn lemma_join_cons(t: Seq<Seq<char>>, sep: Seq<char>)
    requires
        t.len() >= 2,
    ensures
        join(t, sep) == t[0] + sep + join(t.drop_first(), sep),
    decreases t.len(),
{
    if t.len() == 2 {
        assert(join(t.drop_last(), sep) == t.drop_last()[0]);
        assert(join(t.drop_first(), sep) == t.drop_first()[0]);
        assert(join(t, sep) == join(t.drop_last(), sep) + sep + t[1]);
    } else {
        let dl = t.drop_last();
        let df = t.drop_first();
        lemma_join_cons(dl, sep);
        assert(dl.drop_first() =~= df.drop_last());
        assert(df[df.len() - 1] == t[t.len() - 1]);
        assert(join(t, sep) == join(dl, sep) + sep + t[t.len() - 1]);
        assert(join(df, sep) == join(df.drop_last(), sep) + sep + df[df.len() - 1]);
        assert(dl[0] == t[0]);
        assert(join(t, sep) =~= t[0] + sep + join(df, sep));
    }
}

/// Tags joined by `:`: the text starts and ends with a tag character, each `:` follows a
/// tag character, and splitting it at `:` gives the tags back.
proof fn lemma_join_tags(t: Seq<Seq<char>>)
    requires
        t.len() > 0,
        forall|k: int| 0 <= k < t.len() ==> tag_word(#[trigger] t[k]),
    ensures
        ({
            let j = join(t, ":"@);
            &&& j.len() > 0
            &&& j[0] != ':' && !is_ws(j[0])
            &&& j[j.len() - 1] != ':' && !is_ws(j[j.len() - 1])
            &&& forall|i: int| 0 <= i < j.len() && #[trigger] j[i] == ':' ==> 0 < i && j[i - 1] != ':' && !is_ws(j[i - 1])
            &&& forall|i: int| 0 <= i < j.len() && #[trigger] j[i] != ':' ==> !is_ws(j[i])
            &&& split(j, ':') == t
        }),
    decreases t.len(),
{
    reveal_strlit(":");
    let t0 = t[0];
    assert(tag_word(t0));
    assert forall|i: int| 0 <= i < t0.len() implies t0[i] != ':' by {}
    if t.len() == 1 {
        lemma_split_one(t0, ':');
        assert(split(join(t, ":"@), ':') =~= t);
    } else {
        lemma_join_cons(t, ":"@);
        let rest = t.drop_first();
        assert forall|k: int| 0 <= k < rest.len() implies tag_word(#[trigger] rest[k]) by {
            assert(rest[k] == t[k + 1]);
        }
        lemma_join_tags(rest);
        let jr = join(rest, ":"@);
        let j = join(t, ":"@);
        assert(j =~= t0 + seq![':'] + jr);
        lemma_split_cons(t0, jr, ':');
        assert(seq![t0] + rest =~= t);
        let n = t0.len() as int;
        assert forall|i: int| 0 <= i < j.len() && #[trigger] j[i] == ':' implies 0 < i && j[i - 1] != ':'
            && !is_ws(j[i - 1]) by {
            if i < n {
                assert(j[i] == t0[i]);
            } else if i == n {
                assert(j[i - 1] == t0[n - 1]);
            } else {
                assert(j[i] == jr[i - n - 1]);
                if i - n - 1 == 0 {
                    assert(false);
                } else {
                    assert(j[i - 1] == jr[i - n - 2]);
                }
            }
        }
        assert forall|i: int| 0 <= i < j.len() && #[trigger] j[i] != ':' implies !is_ws(j[i]) by {
            if i < n {
                assert(j[i] == t0[i]);
            } else if i > n {
                assert(j[i] == jr[i - n - 1]);
            }
        }
        assert(j[j.len() - 1] == jr[jr.len() - 1]);
        assert(j[0] == t0[0]);
    }
}

proof fn lemma_rfind_at(s: Seq<char>, p: Seq<char>, k: int, j: int)
    requires
        occurs_at(s, p, k),
        k < j,
        forall|m: int| k < m < j ==> !occurs_at(s, p, m),
    ensures
        rfind_before(s, p, j) == Some(k),
    decreases j,
{
    if j - 1 > k {
        lemma_rfind_at(s, p, k, j - 1);
    }
}

proof fn lemma_rfind_absent(s: Seq<char>, p: Seq<char>, j: int)
    requires
        forall|m: int| m < j ==> !occurs_at(s, p, m),
    ensures
        rfind_before(s, p, j) is None,
    decreases j,
{
    if j > 0 {
        lemma_rfind_absent(s, p, j - 1);
    }
}

/// Trailing spaces after text that ends in a non-space come off, and nothing more.
proof fn lemma_trim_end_spaces(h: Seq<char>, sp: Seq<char>)
    requires
        h.len() > 0,
        !is_ws(h[h.len() - 1]),
        forall|i: int| 0 <= i < sp.len() ==> #[trigger] sp[i] == ' ',
    ensures
        trim_end(h + sp) == h,
{
    let x = h + sp;
    lemma_ws_run_start(x, x.len() as int);
    let w = ws_run_start(x, x.len() as int);
    if w < h.len() {
        assert(is_ws(x[h.len() - 1]));
    }
    if w > h.len() {
        assert(x[w - 1] == sp[w - 1 - h.len()]);
        assert(false);
    }
    assert(x.subrange(0, w) =~= h);
}

/// A heading's trailing tag group is split off: a title without `:` that is its own
/// trimmed form, one or more spaces, and `:tag1:tag2:` give the title and the tags; a
/// text that does not end with `:` has no tags.
pub proof fn law_split_tags(h: Seq<char>, n: nat, tags: Seq<Seq<char>>, other: Seq<char>)
    requires
        h.len() > 0,
        trim(h) == h,
        forall|i: int| 0 <= i < h.len() ==> #[trigger] h[i] != ':',
        n >= 1,
        tags.len() > 0,
        forall|k: int| 0 <= k < tags.len() ==> tag_word(#[trigger] tags[k]),
    ensures
        spec_split_tags(h + Seq::new(n, |i: int| ' ') + ":"@ + join(tags, ":"@) + ":"@) == (h, tags),
        !(other.len() > 0 && other[other.len() - 1] == ':') ==> spec_split_tags(other) == (other, Seq::<Seq<char>>::empty()),
{
    reveal_strlit(":");
    reveal_strlit("  :");
    reveal_strlit("\t:");
    reveal_strlit(" :");
    let sep = Seq::new(n, |i: int| ' ');
    let jn = join(tags, ":"@);
    lemma_join_tags(tags);
    let s = h + sep + ":"@ + jn + ":"@;
    let hl = h.len() as int;
    let q = hl + n;
    // The title ends in a non-space.
    lemma_ws_run_start(h, hl);
    crate::text::lemma_ws_run_end(h, 0);
    if is_ws(h[hl - 1]) {
        assert(trim(h).len() < h.len());
    }
    assert(s.len() == q + 1 + jn.len() + 1);
    assert forall|i: int| 0 <= i < q implies #[trigger] s[i] != ':' by {
        if i < hl {
            assert(s[i] == h[i]);
        } else {
            assert(s[i] == sep[i - hl]);
        }
    }
    assert(s[q] == ':');
    assert(s[s.len() - 1] == ':');
    // Every `:` after the first follows a tag character.
    assert forall|i: int| q < i < s.len() && #[trigger] s[i] == ':' implies !is_ws(s[i - 1]) && s[i - 1] != ':' by {
        if i == s.len() - 1 {
            assert(s[i - 1] == jn[jn.len() - 1]);
        } else {
            assert(s[i] == jn[i - q - 1]);
            if i - q - 1 == 0 {
                assert(false);
            } else {
                assert(s[i - 1] == jn[i - q - 2]);
            }
        }
    }
    assert(has_suffix(s, ":"@)) by {
        assert(s.subrange(s.len() - 1, s.len() as int) =~= ":"@);
    }
    // The tag text between the first and the last `:`.
    let ts = s.subrange(q, s.len() as int);
    assert(ts.subrange(1, ts.len() - 1) =~= jn);
    if n >= 2 {
        let p = q - 2;
        assert(s[p] == ' ' && s[p + 1] == ' ');
        assert(occurs_at(s, "  :"@, p)) by {
            assert(s.subrange(p, p + 3) =~= "  :"@);
        }
        assert forall|m: int| p < m < s.len() + 1 implies !occurs_at(s, "  :"@, m) by {
            if occurs_at(s, "  :"@, m) {
                assert(s.subrange(m, m + 3)[2] == s[m + 2]);
                assert(s.subrange(m, m + 3)[1] == s[m + 1]);
            }
        }
        lemma_rfind_at(s, "  :"@, p, s.len() + 1int);
        assert(wide_tag_sep(s) == Some(p));
        assert(s.subrange(p + 2, s.len() as int) =~= ts);
        assert(s.subrange(0, p) =~= h + Seq::new((n - 2) as nat, |i: int| ' '));
        lemma_trim_end_spaces(h, Seq::new((n - 2) as nat, |i: int| ' '));
    } else {
        let p = q - 1;
        assert forall|m: int| m < s.len() + 1 implies !occurs_at(s, "  :"@, m) by {
            if occurs_at(s, "  :"@, m) {
                assert(s.subrange(m, m + 3)[2] == s[m + 2]);
                assert(s.subrange(m, m + 3)[1] == s[m + 1]);
                assert(s.subrange(m, m + 3)[0] == s[m]);
                if m + 2 == q {
                    assert(s[m] == h[hl - 1]);
                }
            }
        }
        assert forall|m: int| m < s.len() + 1 implies !occurs_at(s, "\t:"@, m) by {
            if occurs_at(s, "\t:"@, m) {
                assert(s.subrange(m, m + 2)[1] == s[m + 1]);
                assert(s.subrange(m, m + 2)[0] == s[m]);
            }
        }
        lemma_rfind_absent(s, "  :"@, s.len() + 1int);
        lemma_rfind_absent(s, "\t:"@, s.len() + 1int);
        assert(wide_tag_sep(s) is None);
        assert(occurs_at(s, " :"@, p)) by {
            assert(s.subrange(p, p + 2) =~= " :"@);
        }
        assert forall|m: int| p < m < s.len() + 1 implies !occurs_at(s, " :"@, m) by {
            if occurs_at(s, " :"@, m) {
                assert(s.subrange(m, m + 2)[1] == s[m + 1]);
                assert(s.subrange(m, m + 2)[0] == s[m]);
            }
        }
        lemma_rfind_at(s, " :"@, p, s.len() + 1int);
        assert(s.subrange(p + 1, s.len() as int) =~= ts);
        assert(has_suffix(ts, ":"@)) by {
            assert(ts.subrange(ts.len() - 1, ts.len() as int) =~= ":"@);
        }
        assert(has_prefix(ts, ":"@)) by {
            assert(ts.subrange(0, 1) =~= ":"@);
        }
        assert(s.subrange(0, p) =~= h + Seq::<char>::empty());
        lemma_trim_end_spaces(h, Seq::<char>::empty());
    }
    if !(other.len() > 0 && other[other.len() - 1] == ':') {
        if has_suffix(other, ":"@) {
            assert(other.subrange(other.len() - 1, other.len() as int)[0] == other[other.len() - 1]);
        }
    }
}


/// Text that starts and ends with a non-space is its own trimmed form.
proof fn lemma_trim_same_text(x: Seq<char>)
    requires
        x.len() > 0,
        !is_ws(x[0]),
        !is_ws(x[x.len() - 1]),
    ensures
        trim(x) == x,
{
    crate::text::lemma_ws_run_end(x, 0);
    lemma_ws_run_start(x, x.len() as int);
    assert(x.subrange(0, x.len() as int) =~= x);
}

/// A heading line is as many stars as the heading is deep, a space and the title: it
/// reads back with that depth and that title (a title without trailing tags).
pub proof fn law_heading_depth(n: nat, t: Seq<char>)
    requires
        1 <= n <= u32::MAX,
        t.len() > 0,
        !is_ws(t[0]),
        !is_ws(t[t.len() - 1]),
        t[t.len() - 1] != ':',
    ensures
        spec_parse_heading(Seq::new(n, |i: int| '*') + " "@ + t) == Some((n as u32, t, Seq::<Seq<char>>::empty())),
{
    reveal_strlit(" ");
    reveal_strlit(":");
    let stars = Seq::new(n, |i: int| '*');
    let line = stars + " "@ + t;
    assert(line[0] == '*');
    assert(line[line.len() - 1] == t[t.len() - 1]);
    lemma_trim_same_text(line);
    assert forall|k: int| 0 <= k < n implies #[trigger] line[k] == '*' by {}
    assert(line[n as int] == ' ');
    lemma_char_run_to(line, n as int, 0);
    let rest = line.subrange(n as int, line.len() as int);
    assert(rest[0] == ' ');
    assert(rest.subrange(1, rest.len() as int) =~= t);
    lemma_trim_same_text(t);
    assert(!has_suffix(t, ":"@)) by {
        if has_suffix(t, ":"@) {
            assert(t.subrange(t.len() - 1, t.len() as int)[0] == t[t.len() - 1]);
        }
    }
}

proof fn lemma_char_run_to(s: Seq<char>, e: int, i: int)
    requires
        0 <= i <= e < s.len(),
        forall|k: int| i <= k < e ==> #[trigger] s[k] == '*',
        s[e] != '*',
    ensures
        char_run(s, '*', i) == e,
    decreases e - i,
{
    if i < e {
        lemma_char_run_to(s, e, i + 1);
    }
}

} // verus!
