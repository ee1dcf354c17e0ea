//! Org inline markup: links, images, emphasis, code, sub/superscripts and math.
use vstd::prelude::*;
use crate::ast::node::{
    entries_view, law_data_read_after_write, lemma_entries_view_index, lemma_nodes_view_push, lookup,
    nodes_view, AstNode, DataEntry, DataValue, SNode, SValue,
};
use crate::parser::org::directive::{obj_insert, obj_insert_data};
use crate::text::{
    char_alphanumeric, char_alphabetic, ends_with_str, eq, find_char_at, from_chars, has_prefix,
    has_suffix, is_alphabetic, is_alphanumeric, is_whitespace, is_ws, lowercase, matches_at, occurs_at, push_all,
    push_str, slice, starts_with_str, str_lowercase, to_chars,
};
use crate::util::{escape_url_parens_chars, spec_escape_url_parens};

verus! {

// ------------------------------------------------------------------
// Link aliases (`#+LINK: name url`)
// ------------------------------------------------------------------

/// One `#+LINK:` abbreviation.
pub struct LinkAlias {
    pub name: String,
    pub url: String,
}

/// The `#+LINK:` abbreviations of a document; a name occurs once.
pub struct LinkAliases {
    pub entries: Vec<LinkAlias>,
}

impl View for LinkAliases {
    type V = Seq<(Seq<char>, Seq<char>)>;

    open spec fn view(&self) -> Seq<(Seq<char>, Seq<char>)> {
        self.entries@.map_values(|e: LinkAlias| (e.name@, e.url@))
    }
}

/// The URL abbreviated by `name`.
pub open spec fn alias_lookup(al: Seq<(Seq<char>, Seq<char>)>, name: Seq<char>) -> Option<Seq<char>>
    decreases al.len(),
{
    if al.len() == 0 {
        None
    } else if al[0].0 == name {
        Some(al[0].1)
    } else {
        alias_lookup(al.drop_first(), name)
    }
}

/// `al` with `name` abbreviating `url`, replacing an earlier abbreviation of `name`.
pub open spec fn alias_insert(al: Seq<(Seq<char>, Seq<char>)>, name: Seq<char>, url: Seq<char>) -> Seq<(Seq<char>, Seq<char>)>
    decreases al.len(),
{
    if al.len() == 0 {
        seq![(name, url)]
    } else if al[0].0 == name {
        al.update(0, (name, url))
    } else {
        seq![al[0]] + alias_insert(al.drop_first(), name, url)
    }
}

impl LinkAliases {
    pub fn new() -> (r: LinkAliases)
        ensures
            r@ == Seq::<(Seq<char>, Seq<char>)>::empty(),
    {
        LinkAliases { entries: Vec::new() }
    }

    /// The URL abbreviated by `name`.
    pub fn get(&self, name: &[char]) -> (r: Option<Vec<char>>)
        ensures
            r matches Some(u) ==> alias_lookup(self@, name@) == Some(u@),
            r is None ==> alias_lookup(self@, name@) is None,
    {
        let ghost al = self@;
        let mut i: usize = 0;
        assert(al.subrange(0, al.len() as int) =~= al);
        while i < self.entries.len()
            invariant
                i <= self.entries@.len(),
                al == self@,
                al.len() == self.entries@.len(),
                alias_lookup(al, name@) == alias_lookup(al.subrange(i as int, al.len() as int), name@),
            decreases self.entries.len() - i,
        {
            let ghost rest = al.subrange(i as int, al.len() as int);
            assert(rest.drop_first() =~= al.subrange(i + 1, al.len() as int));
            assert(rest[0] == (self.entries@[i as int].name@, self.entries@[i as int].url@));
            let n = to_chars(self.entries[i].name.as_str());
            if eq(&n, name) {
                return Some(to_chars(self.entries[i].url.as_str()));
            }
            i += 1;
        }
        None
    }

    /// Makes `name` abbreviate `url`.
    pub fn insert(&mut self, name: &[char], url: &[char])
        ensures
            final(self)@ == alias_insert(old(self)@, name@, url@),
    {
        let ghost al = self@;
        let mut i: usize = 0;
        while i < self.entries.len()
            invariant
                i <= self.entries@.len(),
                al == old(self)@,
                self@ == al,
                al.len() == self.entries@.len(),
                forall|j: int| 0 <= j < i ==> al[j].0 != name@,
            decreases self.entries.len() - i,
        {
            assert(al[i as int] == (self.entries@[i as int].name@, self.entries@[i as int].url@));
            let n = to_chars(self.entries[i].name.as_str());
            if eq(&n, name) {
                self.entries.set(i, LinkAlias { name: from_chars(name), url: from_chars(url) });
                proof {
                    lemma_alias_insert_at(al, name@, url@, i as int);
                    assert(self@ =~= al.update(i as int, (name@, url@)));
                }
                return;
            }
            i += 1;
        }
        let ghost before = self.entries@;
        self.entries.push(LinkAlias { name: from_chars(name), url: from_chars(url) });
        proof {
            lemma_alias_insert_absent(al, name@, url@);
            assert(self@ =~= al.push((name@, url@)));
        }
    }
}

proof fn lemma_alias_insert_at(al: Seq<(Seq<char>, Seq<char>)>, name: Seq<char>, url: Seq<char>, i: int)
    requires
        0 <= i < al.len(),
        al[i].0 == name,
        forall|j: int| 0 <= j < i ==> al[j].0 != name,
    ensures
        alias_insert(al, name, url) == al.update(i, (name, url)),
    decreases i,
{
    if i > 0 {
        lemma_alias_insert_at(al.drop_first(), name, url, i - 1);
        assert(seq![al[0]] + al.drop_first().update(i - 1, (name, url)) =~= al.update(i, (name, url)));
    }
}

proof fn lemma_alias_insert_absent(al: Seq<(Seq<char>, Seq<char>)>, name: Seq<char>, url: Seq<char>)
    requires
        forall|j: int| 0 <= j < al.len() ==> al[j].0 != name,
    ensures
        alias_insert(al, name, url) == al.push((name, url)),
    decreases al.len(),
{
    if al.len() > 0 {
        lemma_alias_insert_absent(al.drop_first(), name, url);
        assert(seq![al[0]] + al.drop_first().push((name, url)) =~= al.push((name, url)));
    }
}

/// An alias defined last is the one a link finds: after `name` is made to abbreviate
/// `url`, looking `name` up gives `url`, and every other name gives what it gave before.
pub proof fn law_alias_read_after_write(al: Seq<(Seq<char>, Seq<char>)>, name: Seq<char>, url: Seq<char>, other: Seq<char>)
    ensures
        alias_lookup(alias_insert(al, name, url), name) == Some(url),
        other != name ==> alias_lookup(alias_insert(al, name, url), other) == alias_lookup(al, other),
    decreases al.len(),
{
    let ins = alias_insert(al, name, url);
    if al.len() > 0 && al[0].0 != name {
        law_alias_read_after_write(al.drop_first(), name, url, other);
        assert(ins.drop_first() =~= alias_insert(al.drop_first(), name, url));
        assert(ins[0] == al[0]);
    } else if al.len() > 0 {
        assert(ins.drop_first() =~= al.drop_first());
        assert(ins[0] == (name, url));
    } else {
        assert(ins.drop_first() =~= al);
        assert(ins[0] == (name, url));
    }
}

// ------------------------------------------------------------------
// Scanning helpers
// ------------------------------------------------------------------

/// The number of places where `[[` occurs in `s`.
pub open spec fn dbl(s: Seq<char>) -> nat
    decreases s.len(),
{
    if s.len() < 2 {
        0
    } else {
        (if s[0] == '[' && s[1] == '[' {
            1nat
        } else {
            0nat
        }) + dbl(s.drop_first())
    }
}

pub proof fn lemma_dbl_take(s: Seq<char>, b: int)
    requires
        0 <= b <= s.len(),
    ensures
        dbl(s.take(b)) <= dbl(s),
    decreases s.len(),
{
    if b >= 2 {
        assert(s.take(b).drop_first() =~= s.drop_first().take(b - 1));
        lemma_dbl_take(s.drop_first(), b - 1);
    }
}

pub proof fn lemma_dbl_skip(s: Seq<char>, a: int)
    requires
        0 <= a <= s.len(),
    ensures
        dbl(s.subrange(a, s.len() as int)) <= dbl(s),
    decreases a,
{
    if a > 0 {
        lemma_dbl_skip(s.drop_first(), a - 1);
        assert(s.drop_first().subrange(a - 1, s.drop_first().len() as int) =~= s.subrange(a, s.len() as int));
    } else {
        assert(s.subrange(0, s.len() as int) =~= s);
    }
}

pub proof fn lemma_dbl_sub(s: Seq<char>, a: int, b: int)
    requires
        0 <= a <= b <= s.len(),
    ensures
        dbl(s.subrange(a, b)) <= dbl(s),
{
    lemma_dbl_skip(s.take(b), a);
    assert(s.take(b).subrange(a, b) =~= s.subrange(a, b));
    lemma_dbl_take(s, b);
}

pub proof fn lemma_dbl_pos(s: Seq<char>, k: int)
    requires
        0 <= k,
        k + 1 < s.len(),
        s[k] == '[',
        s[k + 1] == '[',
    ensures
        dbl(s) >= 1,
    decreases k,
{
    if k > 0 {
        lemma_dbl_pos(s.drop_first(), k - 1);
    }
}

/// No `[[` occurs in `s`.
pub open spec fn no_dbl(s: Seq<char>) -> bool {
    forall|k: int| 0 <= k < s.len() - 1 ==> !(#[trigger] s[k] == '[' && s[k + 1] == '[')
}

pub proof fn lemma_no_dbl_zero(s: Seq<char>)
    requires
        no_dbl(s),
    ensures
        dbl(s) == 0,
    decreases s.len(),
{
    if s.len() >= 2 {
        assert(!(s[0] == '[' && s[1] == '['));
        assert(no_dbl(s.drop_first())) by {
            assert forall|k: int| 0 <= k < s.drop_first().len() - 1 implies !(#[trigger] s.drop_first()[k] == '['
                && s.drop_first()[k + 1] == '[') by {
                assert(s.drop_first()[k] == s[k + 1]);
                assert(s.drop_first()[k + 1] == s[k + 2]);
            }
        }
        lemma_no_dbl_zero(s.drop_first());
    }
}

/// What a link description makes of one character: brackets are escaped.
pub open spec fn desc_char(c: char) -> Seq<char> {
    if c == '[' {
        seq!['\\', '[']
    } else if c == ']' {
        seq!['\\', ']']
    } else {
        seq![c]
    }
}

/// A link description with its brackets escaped.
pub open spec fn desc_escape(s: Seq<char>) -> Seq<char>
    decreases s.len(),
{
    if s.len() == 0 {
        Seq::empty()
    } else {
        desc_escape(s.drop_last()) + desc_char(s[s.len() - 1])
    }
}

pub proof fn lemma_desc_escape_no_dbl(s: Seq<char>)
    ensures
        no_dbl(desc_escape(s)),
    decreases s.len(),
{
    if s.len() > 0 {
        lemma_desc_escape_no_dbl(s.drop_last());
        let p = desc_escape(s.drop_last());
        let c = desc_char(s[s.len() - 1]);
        let r = p + c;
        assert(r == desc_escape(s));
        assert(c[0] != '[');
        assert forall|k: int| 0 <= k < r.len() - 1 implies !(#[trigger] r[k] == '[' && r[k + 1] == '[') by {
            if k + 1 < p.len() {
                assert(r[k] == p[k] && r[k + 1] == p[k + 1]);
            } else if k + 1 == p.len() {
                assert(r[k + 1] == c[0]);
            } else {
                assert(r[k] == c[k - p.len()]);
                assert(r[k + 1] == c[k + 1 - p.len()]);
            }
        }
    }
}

/// The first `i` at or after `from` where `delim` closes a markup span: `delim` not
/// followed by an alphanumeric character.
pub open spec fn markup_end(s: Seq<char>, delim: char, i: int) -> Option<int>
    decreases s.len() - i,
{
    if i < 0 || i >= s.len() {
        None
    } else if s[i] == delim && (i + 1 == s.len() || !char_alphanumeric(s[i + 1])) {
        Some(i)
    } else {
        markup_end(s, delim, i + 1)
    }
}

pub proof fn lemma_markup_end(s: Seq<char>, delim: char, i: int)
    requires
        0 <= i,
    ensures
        markup_end(s, delim, i) matches Some(k) ==> i <= k < s.len(),
    decreases s.len() - i,
{
    if i < s.len() && !(s[i] == delim && (i + 1 == s.len() || !char_alphanumeric(s[i + 1]))) {
        lemma_markup_end(s, delim, i + 1);
    }
}

/// A span from `start` (holding `delim`) to the next closing `delim`: its inner text and
/// the number of characters it takes.
pub open spec fn spec_markup_at(s: Seq<char>, start: int, delim: char) -> Option<(Seq<char>, int)> {
    match markup_end(s, delim, start + 1) {
        Some(i) => Some((s.subrange(start + 1, i), i - start + 1)),
        None => None,
    }
}

/// Where the brace group opened at `start` closes, counting nesting from `depth`.
pub open spec fn brace_end(s: Seq<char>, i: int, depth: int) -> Option<int>
    decreases s.len() - i,
{
    if i < 0 || i >= s.len() {
        None
    } else if s[i] == '{' {
        brace_end(s, i + 1, depth + 1)
    } else if s[i] == '}' {
        if depth - 1 == 0 {
            Some(i)
        } else {
            brace_end(s, i + 1, depth - 1)
        }
    } else {
        brace_end(s, i + 1, depth)
    }
}

pub proof fn lemma_brace_end(s: Seq<char>, i: int, depth: int)
    requires
        0 <= i,
    ensures
        brace_end(s, i, depth) matches Some(k) ==> i <= k < s.len(),
    decreases s.len() - i,
{
    if 0 <= i < s.len() {
        if s[i] == '{' {
            lemma_brace_end(s, i + 1, depth + 1);
        } else if s[i] == '}' {
            if depth - 1 != 0 {
                lemma_brace_end(s, i + 1, depth - 1);
            }
        } else {
            lemma_brace_end(s, i + 1, depth);
        }
    }
}

/// The brace group opened at `start`: its inner text and the characters it takes.
pub open spec fn spec_parse_braced(s: Seq<char>, start: int) -> Option<(Seq<char>, int)> {
    match brace_end(s, start + 1, 1) {
        Some(i) => Some((s.subrange(start + 1, i), i - start + 1)),
        None => None,
    }
}

/// The closing `$` of inline math opened before `start`, scanning from `i`: an
/// unescaped `$` not followed by another `$` (a `$$` pair is skipped).
pub open spec fn dollar_end(s: Seq<char>, start: int, i: int) -> Option<int>
    decreases s.len() - i,
{
    if i < 0 || i >= s.len() {
        None
    } else if s[i] == '$' && (i == start || s[i - 1] != '\\') {
        if i + 1 < s.len() && s[i + 1] == '$' {
            dollar_end(s, start, i + 2)
        } else {
            Some(i)
        }
    } else {
        dollar_end(s, start, i + 1)
    }
}

pub proof fn lemma_dollar_end(s: Seq<char>, start: int, i: int)
    requires
        0 <= i,
    ensures
        dollar_end(s, start, i) matches Some(k) ==> i <= k < s.len(),
    decreases s.len() - i,
{
    if 0 <= i < s.len() {
        if s[i] == '$' && (i == start || s[i - 1] != '\\') {
            if i + 1 < s.len() && s[i + 1] == '$' {
                lemma_dollar_end(s, start, i + 2);
            }
        } else {
            lemma_dollar_end(s, start, i + 1);
        }
    }
}

/// Inline math from `start`: its text and the characters it takes with the closing `$`.
pub open spec fn spec_closing_dollar(s: Seq<char>, start: int) -> Option<(Seq<char>, int)> {
    match dollar_end(s, start, start) {
        Some(i) => Some((s.subrange(start, i), i - start + 1)),
        None => None,
    }
}

/// The closing `$$` of display math from `i` on.
pub open spec fn dd_end(s: Seq<char>, start: int, i: int) -> Option<int>
    decreases s.len() - i,
{
    if i < 0 || i + 1 >= s.len() {
        None
    } else if s[i] == '$' && s[i + 1] == '$' && (i == start || s[i - 1] != '\\') {
        Some(i)
    } else {
        dd_end(s, start, i + 1)
    }
}

pub proof fn lemma_dd_end(s: Seq<char>, start: int, i: int)
    requires
        0 <= i,
    ensures
        dd_end(s, start, i) matches Some(k) ==> i <= k && k + 1 < s.len(),
    decreases s.len() - i,
{
    if 0 <= i && i + 1 < s.len() && !(s[i] == '$' && s[i + 1] == '$' && (i == start || s[i - 1]
        != '\\')) {
        lemma_dd_end(s, start, i + 1);
    }
}

/// Display math from `start`: its text and the characters it takes with the closing `$$`.
pub open spec fn spec_closing_double_dollar(s: Seq<char>, start: int) -> Option<(Seq<char>, int)> {
    match dd_end(s, start, start) {
        Some(i) => Some((s.subrange(start, i), i - start + 2)),
        None => None,
    }
}

/// The `]` that closes a link target, with nesting `depth`, from `i` on.
pub open spec fn target_close(s: Seq<char>, i: int, depth: int) -> Option<int>
    decreases s.len() - i,
{
    if i < 0 || i >= s.len() {
        None
    } else if s[i] == '[' {
        target_close(s, i + 1, depth + 1)
    } else if s[i] == ']' {
        if depth - 1 == 0 {
            Some(i)
        } else {
            target_close(s, i + 1, depth - 1)
        }
    } else {
        target_close(s, i + 1, depth)
    }
}

pub proof fn lemma_target_close(s: Seq<char>, i: int, depth: int)
    requires
        0 <= i,
    ensures
        target_close(s, i, depth) matches Some(k) ==> i <= k < s.len(),
    decreases s.len() - i,
{
    if 0 <= i < s.len() {
        if s[i] == '[' {
            lemma_target_close(s, i + 1, depth + 1);
        } else if s[i] == ']' {
            if depth - 1 != 0 {
                lemma_target_close(s, i + 1, depth - 1);
            }
        } else {
            lemma_target_close(s, i + 1, depth);
        }
    }
}

/// The `]]` that closes a link description, from `i` on.
pub open spec fn desc_close(s: Seq<char>, i: int) -> Option<int>
    decreases s.len() - i,
{
    if i < 0 || i >= s.len() {
        None
    } else if s[i] == ']' && i + 1 < s.len() && s[i + 1] == ']' {
        Some(i)
    } else {
        desc_close(s, i + 1)
    }
}

pub proof fn lemma_desc_close(s: Seq<char>, i: int)
    requires
        0 <= i,
    ensures
        desc_close(s, i) matches Some(k) ==> i <= k && k + 1 < s.len(),
    decreases s.len() - i,
{
    if 0 <= i < s.len() && !(s[i] == ']' && i + 1 < s.len() && s[i + 1] == ']') {
        lemma_desc_close(s, i + 1);
    }
}

/// The pieces of a `[[target][description]]` link starting at `start`: the target, the
/// escaped description if there is one, and the number of characters the link takes.
pub open spec fn link_target_end(s: Seq<char>, start: int) -> int {
    match target_close(s, start + 2, 1) {
        Some(k) => k,
        None => s.len() as int,
    }
}

pub open spec fn link_parts(s: Seq<char>, start: int) -> (Seq<char>, Option<Seq<char>>, int) {
    let e = link_target_end(s, start);
    let target = s.subrange(start + 2, e);
    let i = match target_close(s, start + 2, 1) {
        Some(k) => k + 1,
        None => s.len() as int,
    };
    if i < s.len() && s[i] == '[' {
        match desc_close(s, i + 1) {
            Some(k) => (target, Some(desc_escape(s.subrange(i + 1, k))), k + 2 - start),
            None => (target, Some(desc_escape(s.subrange(i + 1, s.len() as int))), s.len() - start),
        }
    } else if i < s.len() && s[i] == ']' {
        (target, None, i + 1 - start)
    } else {
        (target, None, i - start)
    }
}

pub proof fn lemma_link_parts(s: Seq<char>, start: int)
    requires
        0 <= start,
        start + 1 < s.len(),
    ensures
        ({
            let (target, desc, n) = link_parts(s, start);
            &&& 2 <= n <= s.len() - start
            &&& start + 2 <= link_target_end(s, start) <= s.len()
            &&& target == s.subrange(start + 2, link_target_end(s, start))
            &&& desc matches Some(d) ==> no_dbl(d)
        }),
{
    lemma_target_close(s, start + 2, 1);
    let i = match target_close(s, start + 2, 1) {
        Some(k) => k + 1,
        None => s.len() as int,
    };
    if i < s.len() && s[i] == '[' {
        lemma_desc_close(s, i + 1);
        match desc_close(s, i + 1) {
            Some(k) => lemma_desc_escape_no_dbl(s.subrange(i + 1, k)),
            None => lemma_desc_escape_no_dbl(s.subrange(i + 1, s.len() as int)),
        }
    }
}

/// `s` with `&` escaped by a backslash.
pub open spec fn amp_escape(s: Seq<char>) -> Seq<char>
    decreases s.len(),
{
    if s.len() == 0 {
        Seq::empty()
    } else {
        amp_escape(s.drop_last()) + (if s[s.len() - 1] == '&' {
            seq!['\\', '&']
        } else {
            seq![s[s.len() - 1]]
        })
    }
}

/// The path names an image (by its extension, in lower case).
pub open spec fn is_image_path(path: Seq<char>) -> bool {
    let lower = str_lowercase(path);
    has_suffix(lower, ".png"@) || has_suffix(lower, ".jpg"@) || has_suffix(lower, ".jpeg"@)
        || has_suffix(lower, ".gif"@) || has_suffix(lower, ".svg"@) || has_suffix(lower, ".webp"@)
}

/// `target` split at its first `:`.
pub open spec fn split_once_colon(t: Seq<char>) -> Option<(Seq<char>, Seq<char>)> {
    match crate::text::find_char(t, ':') {
        Some(k) => Some((t.subrange(0, k), t.subrange(k + 1, t.len() as int))),
        None => None,
    }
}

/// A link node with the given children and URL.
pub open spec fn link_node(children: Seq<SNode>, url: Seq<char>) -> SNode {
    SNode::empty("link"@).with_children(children).with_data("url"@, SValue::Str(url))
}

/// The node made from the link starting at `start`, and the characters it takes.
pub open spec fn spec_link_or_image(s: Seq<char>, al: Seq<(Seq<char>, Seq<char>)>, start: int) -> (SNode, int)
    decreases dbl(s), s.len(), 0int,
{
    if !(0 <= start && start + 1 < s.len() && s[start] == '[' && s[start + 1] == '[') {
        (SNode::empty("link"@), 2)
    } else {
        let (target, desc, n) = link_parts(s, start);
        proof {
            lemma_link_parts(s, start);
            lemma_dbl_pos(s, start);
            lemma_dbl_sub(s, start + 2, link_target_end(s, start));
            if desc is Some {
                lemma_no_dbl_zero(desc->0);
            }
        }
        if has_prefix(target, "file:"@) {
            let path = target.subrange(5, target.len() as int);
            proof {
                reveal_strlit("file:");
                lemma_dbl_skip(target, 5);
            }
            if is_image_path(path) {
                let alt = match desc {
                    Some(d) => d,
                    None => path,
                };
                (
                    SNode::empty("image"@).with_data("url"@, SValue::Str(path)).with_data(
                        "alt"@,
                        SValue::Str(alt),
                    ),
                    n,
                )
            } else {
                let text = match desc {
                    Some(d) => d,
                    None => path,
                };
                (link_node(spec_inline_from(text, al, 0), "file:"@ + path), n)
            }
        } else {
            match alias_lookup(al, target) {
                Some(url) => {
                    let text = match desc {
                        Some(d) => d,
                        None => target,
                    };
                    (link_node(spec_inline_from(text, al, 0), spec_escape_url_parens(url)), n)
                },
                None => {
                    let via = match split_once_colon(target) {
                        Some((alias, suffix)) => match alias_lookup(al, alias) {
                            Some(base) => Some(base + suffix),
                            None => None,
                        },
                        None => None,
                    };
                    match via {
                        Some(full_url) => {
                            let text = match desc {
                                Some(d) => d,
                                None => target,
                            };
                            (link_node(spec_inline_from(text, al, 0), spec_escape_url_parens(full_url)), n)
                        },
                        None => match desc {
                            Some(d) => (
                                link_node(spec_inline_from(d, al, 0), spec_escape_url_parens(target)),
                                n,
                            ),
                            None => (
                                link_node(
                                    seq![SNode::empty("text"@).with_value(amp_escape(target))],
                                    spec_escape_url_parens(target),
                                ),
                                n,
                            ),
                        },
                    }
                },
            }
        }
    }
}

/// The end of a bare URL: the first whitespace at or after `i`.
pub open spec fn url_end(s: Seq<char>, i: int) -> int
    decreases s.len() - i,
{
    if 0 <= i < s.len() && !is_ws(s[i]) {
        url_end(s, i + 1)
    } else {
        i
    }
}

pub proof fn lemma_url_end(s: Seq<char>, i: int)
    requires
        0 <= i <= s.len(),
    ensures
        i <= url_end(s, i) <= s.len(),
    decreases s.len() - i,
{
    if i < s.len() && !is_ws(s[i]) {
        lemma_url_end(s, i + 1);
    }
}

/// The character may open inline math after a `$`.
pub open spec fn math_opener(c: char) -> bool {
    char_alphabetic(c) || c == '\\' || c == '{' || c == '(' || c == '_' || c == '^'
}

/// The inline nodes of `s[i..]`.
pub open spec fn spec_inline_from(s: Seq<char>, al: Seq<(Seq<char>, Seq<char>)>, i: int) -> Seq<SNode>
    decreases dbl(s), s.len(), s.len() - i,
{
    if i < 0 || i >= s.len() {
        Seq::empty()
    } else {
        let rest = s.subrange(i, s.len() as int);
        if i + 1 < s.len() && s[i] == '[' && s[i + 1] == '[' {
            let n = link_parts(s, i).2;
            proof {
                lemma_link_parts(s, i);
            }
            seq![spec_link_or_image(s, al, i).0] + spec_inline_from(s, al, i + n)
        } else if has_prefix(rest, "http://"@) || has_prefix(rest, "https://"@) {
            let j = url_end(s, i);
            proof {
                reveal_strlit("http://");
                reveal_strlit("https://");
                if has_prefix(rest, "http://"@) {
                    assert(rest.subrange(0, 7)[0] == rest[0]);
                } else {
                    assert(rest.subrange(0, 8)[0] == rest[0]);
                }
                assert(s[i] == 'h');
                lemma_url_end(s, i + 1);
            }
            let url = s.subrange(i, j);
            seq![link_node(seq![SNode::empty("text"@).with_value(url)], spec_escape_url_parens(url))]
                + spec_inline_from(s, al, j)
        } else {
            let c = s[i];
            let wrapped = if c == '*' || c == '/' || c == '+' {
                spec_markup_at(s, i, c)
            } else {
                None
            };
            match wrapped {
                Some((inner, n)) => {
                    proof {
                        lemma_markup_end(s, c, i + 1);
                        lemma_dbl_sub(s, i + 1, i + n - 1);
                    }
                    let kind = if c == '*' {
                        "strong"@
                    } else if c == '/' {
                        "emphasis"@
                    } else {
                        "delete"@
                    };
                    seq![SNode::empty(kind).with_children(spec_inline_from(inner, al, 0))]
                        + spec_inline_from(s, al, i + n)
                },
                None => spec_inline_tail(s, al, i),
            }
        }
    }
}

/// The inline nodes of `s[i..]` when no link, bare URL, bold, italic or strike-through starts at `i`.
pub open spec fn spec_inline_tail(s: Seq<char>, al: Seq<(Seq<char>, Seq<char>)>, i: int) -> Seq<SNode>
    decreases dbl(s), s.len(), s.len() - i, 0int,
{
    if i < 0 || i >= s.len() {
        Seq::empty()
    } else {
        let c = s[i];
        let code = if c == '=' || c == '~' {
            spec_markup_at(s, i, c)
        } else {
            None
        };
        proof {
            lemma_markup_end(s, c, i + 1);
        }
        if code is Some {
            let (inner, n) = code->0;
            seq![SNode::empty("inlineCode"@).with_value(inner)] + spec_inline_from(s, al, i + n)
        } else if c == '~' {
            seq![SNode::empty("text"@).with_value(seq!['~'])] + spec_inline_from(s, al, i + 1)
        } else if c == '_' && i + 1 < s.len() && s[i + 1] == '{' && spec_parse_braced(s, i + 1) is Some {
            let (inner, n) = spec_parse_braced(s, i + 1)->0;
            proof {
                lemma_brace_end(s, i + 2, 1);
                lemma_dbl_sub(s, i + 2, i + n);
            }
            seq![SNode::empty("subscript"@).with_children(spec_inline_from(inner, al, 0))]
                + spec_inline_from(s, al, i + n + 1)
        } else if c == '_' && spec_markup_at(s, i, '_') is Some {
            let (inner, n) = spec_markup_at(s, i, '_')->0;
            proof {
                lemma_dbl_sub(s, i + 1, i + n - 1);
            }
            seq![SNode::empty("underline"@).with_children(spec_inline_from(inner, al, 0))]
                + spec_inline_from(s, al, i + n)
        } else if c == '^' && i + 1 < s.len() && s[i + 1] == '{' && spec_parse_braced(s, i + 1) is Some {
            let (inner, n) = spec_parse_braced(s, i + 1)->0;
            proof {
                lemma_brace_end(s, i + 2, 1);
                lemma_dbl_sub(s, i + 2, i + n);
            }
            seq![SNode::empty("superscript"@).with_children(spec_inline_from(inner, al, 0))]
                + spec_inline_from(s, al, i + n + 1)
        } else if c == '$' && i + 1 < s.len() && s[i + 1] == '$' && spec_closing_double_dollar(s, i + 2) is Some {
            let (inner, n) = spec_closing_double_dollar(s, i + 2)->0;
            proof {
                lemma_dd_end(s, i + 2, i + 2);
            }
            seq![SNode::empty("displayMath"@).with_value(inner)] + spec_inline_from(s, al, i + n + 2)
        } else if c == '$' && i + 1 < s.len() && s[i + 1] != '$' && math_opener(s[i + 1])
            && spec_closing_dollar(s, i + 1) is Some {
            let (inner, n) = spec_closing_dollar(s, i + 1)->0;
            proof {
                lemma_dollar_end(s, i + 1, i + 1);
            }
            seq![SNode::empty("inlineMath"@).with_value(inner)] + spec_inline_from(s, al, i + n + 1)
        } else {
            seq![SNode::empty("text"@).with_value(seq![c])] + spec_inline_from(s, al, i + 1)
        }
    }
}


// ------------------------------------------------------------------
// Executable scanners
// ------------------------------------------------------------------

/// The markup span opened by `delim` at `start`: its inner text and the characters it takes.
pub(crate) fn markup_at(chars: &[char], start: usize, delim: char) -> (r: Option<(Vec<char>, usize)>)
    requires
        start < chars.len(),
    ensures
        match r {
            Some((inner, n)) => spec_markup_at(chars@, start as int, delim) == Some((inner@, n as int)),
            None => spec_markup_at(chars@, start as int, delim) is None,
        },
{
    let mut i: usize = start + 1;
    while i < chars.len()
        invariant
            start < i <= chars@.len(),
            markup_end(chars@, delim, start + 1) == markup_end(chars@, delim, i as int),
        decreases chars.len() - i,
    {
        if chars[i] == delim && (i + 1 == chars.len() || !is_alphanumeric(chars[i + 1])) {
            let inner = slice(chars, start + 1, i);
            return Some((inner, i - start + 1));
        }
        i += 1;
    }
    None
}

/// The brace group opened at `start`: its inner text and the characters it takes.
fn parse_braced(chars: &[char], start: usize) -> (r: Option<(Vec<char>, usize)>)
    requires
        start < chars.len(),
    ensures
        match r {
            Some((inner, n)) => spec_parse_braced(chars@, start as int) == Some((inner@, n as int)),
            None => spec_parse_braced(chars@, start as int) is None,
        },
{
    let mut depth: usize = 1;
    let mut i: usize = start + 1;
    while i < chars.len()
        invariant
            start < i <= chars@.len(),
            1 <= depth <= i - start,
            brace_end(chars@, start + 1, 1) == brace_end(chars@, i as int, depth as int),
        decreases chars.len() - i,
    {
        if chars[i] == '{' {
            depth += 1;
        } else if chars[i] == '}' {
            if depth == 1 {
                let inner = slice(chars, start + 1, i);
                return Some((inner, i - start + 1));
            }
            depth -= 1;
        }
        i += 1;
    }
    None
}

/// Inline math from `start`: its text and the characters it takes with the closing `$`.
fn find_closing_dollar(chars: &[char], start: usize) -> (r: Option<(Vec<char>, usize)>)
    requires
        start <= chars@.len(),
    ensures
        match r {
            Some((inner, n)) => spec_closing_dollar(chars@, start as int) == Some((inner@, n as int)),
            None => spec_closing_dollar(chars@, start as int) is None,
        },
{
    let mut i: usize = start;
    while i < chars.len()
        invariant
            start <= i,
            dollar_end(chars@, start as int, start as int) == dollar_end(chars@, start as int, i as int),
        decreases chars.len() - i,
    {
        if chars[i] == '$' && (i == start || chars[i - 1] != '\\') {
            if i + 1 < chars.len() && chars[i + 1] == '$' {
                i += 2;
                continue;
            }
            let inner = slice(chars, start, i);
            return Some((inner, i - start + 1));
        }
        i += 1;
    }
    None
}

/// Display math from `start`: its text and the characters it takes with the closing `$$`.
fn find_closing_double_dollar(chars: &[char], start: usize) -> (r: Option<(Vec<char>, usize)>)
    requires
        start <= chars@.len(),
    ensures
        match r {
            Some((inner, n)) => spec_closing_double_dollar(chars@, start as int) == Some((inner@, n as int)),
            None => spec_closing_double_dollar(chars@, start as int) is None,
        },
{
    let mut i: usize = start;
    while i < chars.len() && i + 1 < chars.len()
        invariant
            start <= i <= chars@.len(),
            dd_end(chars@, start as int, start as int) == dd_end(chars@, start as int, i as int),
        decreases chars.len() - i,
    {
        if chars[i] == '$' && chars[i + 1] == '$' && (i == start || chars[i - 1] != '\\') {
            let inner = slice(chars, start, i);
            return Some((inner, i - start + 2));
        }
        i += 1;
    }
    None
}

/// The inline nodes of `text` under the link abbreviations `al`.
pub open spec fn spec_parse_inline(text: Seq<char>, al: Seq<(Seq<char>, Seq<char>)>) -> Seq<SNode> {
    spec_inline_from(text, al, 0)
}

// ------------------------------------------------------------------
// Pending `#+ATTR_HTML` attributes
// ------------------------------------------------------------------

/// Where the rest of `s` starts after the node that `spec_inline_tail` makes at `i`.
pub open spec fn tail_end(s: Seq<char>, i: int) -> int {
    let c = s[i];
    let code = if c == '=' || c == '~' {
        spec_markup_at(s, i, c)
    } else {
        None
    };
    if code is Some {
        i + (code->0).1
    } else if c == '~' {
        i + 1
    } else if c == '_' && i + 1 < s.len() && s[i + 1] == '{' && spec_parse_braced(s, i + 1) is Some {
        i + (spec_parse_braced(s, i + 1)->0).1 + 1
    } else if c == '_' && spec_markup_at(s, i, '_') is Some {
        i + (spec_markup_at(s, i, '_')->0).1
    } else if c == '^' && i + 1 < s.len() && s[i + 1] == '{' && spec_parse_braced(s, i + 1) is Some {
        i + (spec_parse_braced(s, i + 1)->0).1 + 1
    } else if c == '$' && i + 1 < s.len() && s[i + 1] == '$' && spec_closing_double_dollar(s, i + 2) is Some {
        i + (spec_closing_double_dollar(s, i + 2)->0).1 + 2
    } else if c == '$' && i + 1 < s.len() && s[i + 1] != '$' && math_opener(s[i + 1])
        && spec_closing_dollar(s, i + 1) is Some {
        i + (spec_closing_dollar(s, i + 1)->0).1 + 1
    } else {
        i + 1
    }
}

/// Where the rest of `s` starts after the node that `spec_inline_from` makes at `i`.
pub open spec fn step_end(s: Seq<char>, i: int) -> int {
    let rest = s.subrange(i, s.len() as int);
    if i + 1 < s.len() && s[i] == '[' && s[i + 1] == '[' {
        i + link_parts(s, i).2
    } else if has_prefix(rest, "http://"@) || has_prefix(rest, "https://"@) {
        url_end(s, i)
    } else {
        let c = s[i];
        let wrapped = if c == '*' || c == '/' || c == '+' {
            spec_markup_at(s, i, c)
        } else {
            None
        };
        match wrapped {
            Some((_, n)) => i + n,
            None => tail_end(s, i),
        }
    }
}

/// The node at `i` is followed by the rest from `step_end`, which lies past `i`.
pub proof fn lemma_step_end(s: Seq<char>, al: Seq<(Seq<char>, Seq<char>)>, i: int)
    requires
        0 <= i < s.len(),
    ensures
        i < step_end(s, i) <= s.len(),
        spec_inline_from(s, al, i) == seq![spec_inline_from(s, al, i)[0]] + spec_inline_from(s, al, step_end(s, i)),
{
    let rest = s.subrange(i, s.len() as int);
    let c = s[i];
    lemma_markup_end(s, c, i + 1);
    lemma_markup_end(s, '_', i + 1);
    if i + 1 < s.len() {
        lemma_brace_end(s, i + 2, 1);
        lemma_dollar_end(s, i + 1, i + 1);
    }
    lemma_dd_end(s, i + 2, i + 2);
    if i + 1 < s.len() && s[i] == '[' && s[i + 1] == '[' {
        lemma_link_parts(s, i);
    } else if has_prefix(rest, "http://"@) || has_prefix(rest, "https://"@) {
        reveal_strlit("http://");
        reveal_strlit("https://");
        if has_prefix(rest, "http://"@) {
            assert(rest.subrange(0, 7)[0] == rest[0]);
        } else {
            assert(rest.subrange(0, 8)[0] == rest[0]);
        }
        lemma_url_end(s, i + 1);
    }
    let first = spec_inline_from(s, al, i)[0];
    let wrapped = if c == '*' || c == '/' || c == '+' {
        spec_markup_at(s, i, c)
    } else {
        None
    };
    if !(i + 1 < s.len() && s[i] == '[' && s[i + 1] == '[') && !(has_prefix(rest, "http://"@)
        || has_prefix(rest, "https://"@)) && wrapped is None {
        assert(spec_inline_from(s, al, i) == spec_inline_tail(s, al, i));
        assert(step_end(s, i) == tail_end(s, i));
    }
    assert(spec_inline_from(s, al, i) =~= seq![first] + spec_inline_from(s, al, step_end(s, i)));
}

/// The object `acc` with the entries of `m` put in one after another by key order, a
/// later entry for a key replacing an earlier one.
pub open spec fn attr_fold(acc: Seq<(Seq<char>, SValue)>, m: Seq<(Seq<char>, SValue)>) -> Seq<(Seq<char>, SValue)>
    decreases m.len(),
{
    if m.len() == 0 {
        acc
    } else {
        attr_fold(obj_insert(acc, m[0].0, m[0].1), m.drop_first())
    }
}

/// The object a link takes from pending attributes: their entries ordered by key.
pub open spec fn attr_object(m: Seq<(Seq<char>, SValue)>) -> Seq<(Seq<char>, SValue)> {
    attr_fold(Seq::empty(), m)
}

/// The pending attributes as entries of keys and values.
pub open spec fn pending_view(p: Option<Vec<DataEntry>>) -> Option<Seq<(Seq<char>, SValue)>> {
    match p {
        Some(m) => Some(entries_view(m@)),
        None => None,
    }
}

/// `n` with the pending attributes `p` as its `attr_html` data, when there are any.
pub open spec fn with_attr_html(n: SNode, p: Option<Seq<(Seq<char>, SValue)>>) -> SNode {
    match p {
        Some(m) => if m.len() > 0 {
            n.with_data("attr_html"@, SValue::Object(attr_object(m)))
        } else {
            n
        },
        None => n,
    }
}

/// The inline nodes of `s[i..]` when the attributes `p` wait for a link: the first
/// `[[...]]` link or image takes them, and the ones after it find none.
pub open spec fn spec_inline_attr(
    s: Seq<char>,
    al: Seq<(Seq<char>, Seq<char>)>,
    i: int,
    p: Option<Seq<(Seq<char>, SValue)>>,
) -> Seq<SNode>
    decreases s.len() - i,
{
    if i < 0 || i >= s.len() {
        Seq::empty()
    } else if i + 1 < s.len() && s[i] == '[' && s[i + 1] == '[' {
        proof {
            lemma_link_parts(s, i);
        }
        seq![with_attr_html(spec_link_or_image(s, al, i).0, p)] + spec_inline_attr(
            s,
            al,
            i + link_parts(s, i).2,
            None,
        )
    } else {
        proof {
            lemma_step_end(s, al, i);
        }
        seq![spec_inline_from(s, al, i)[0]] + spec_inline_attr(s, al, step_end(s, i), p)
    }
}

/// What is left of the attributes `p` after `s[i..]`: nothing once a `[[...]]` link or
/// image has taken them, `p` where `s[i..]` holds none.
pub open spec fn spec_attr_left(
    s: Seq<char>,
    al: Seq<(Seq<char>, Seq<char>)>,
    i: int,
    p: Option<Seq<(Seq<char>, SValue)>>,
) -> Option<Seq<(Seq<char>, SValue)>>
    decreases s.len() - i,
{
    if i < 0 || i >= s.len() {
        p
    } else if i + 1 < s.len() && s[i] == '[' && s[i + 1] == '[' {
        None
    } else {
        proof {
            lemma_step_end(s, al, i);
        }
        spec_attr_left(s, al, step_end(s, i), p)
    }
}

/// With no attributes waiting, the nodes are those of `spec_inline_from` and none are left.
pub proof fn lemma_inline_attr_none(s: Seq<char>, al: Seq<(Seq<char>, Seq<char>)>, i: int)
    requires
        0 <= i,
    ensures
        spec_inline_attr(s, al, i, None) == spec_inline_from(s, al, i),
        spec_attr_left(s, al, i, None) is None,
    decreases s.len() - i,
{
    if i < s.len() {
        if i + 1 < s.len() && s[i] == '[' && s[i + 1] == '[' {
            lemma_link_parts(s, i);
            lemma_inline_attr_none(s, al, i + link_parts(s, i).2);
        } else {
            lemma_step_end(s, al, i);
            lemma_inline_attr_none(s, al, step_end(s, i));
        }
        lemma_step_end(s, al, i);
        assert(spec_inline_attr(s, al, i, None) =~= spec_inline_from(s, al, i));
    }
}


/// The `]` closing a link target whose text starts at `from`.
pub(crate) fn target_close_at(chars: &[char], from: usize) -> (r: Option<usize>)
    requires
        from <= chars@.len(),
    ensures
        match r {
            Some(k) => target_close(chars@, from as int, 1) == Some(k as int),
            None => target_close(chars@, from as int, 1) is None,
        },
{
    // `nested` counts the brackets open beyond the link's own.
    let mut nested: usize = 0;
    let mut i: usize = from;
    while i < chars.len()
        invariant
            from <= i <= chars@.len(),
            nested <= i - from,
            target_close(chars@, from as int, 1) == target_close(chars@, i as int, nested + 1),
        decreases chars.len() - i,
    {
        if chars[i] == '[' {
            nested += 1;
        } else if chars[i] == ']' {
            if nested == 0 {
                return Some(i);
            }
            nested -= 1;
        }
        i += 1;
    }
    None
}

/// The `]]` closing a link description whose text starts at `from`.
pub(crate) fn desc_close_at(chars: &[char], from: usize) -> (r: Option<usize>)
    requires
        from <= chars@.len(),
    ensures
        match r {
            Some(k) => desc_close(chars@, from as int) == Some(k as int),
            None => desc_close(chars@, from as int) is None,
        },
{
    let mut i: usize = from;
    while i < chars.len()
        invariant
            from <= i <= chars@.len(),
            desc_close(chars@, from as int) == desc_close(chars@, i as int),
        decreases chars.len() - i,
    {
        if chars[i] == ']' && i + 1 < chars.len() && chars[i + 1] == ']' {
            return Some(i);
        }
        i += 1;
    }
    None
}

/// `s[a..b]` with its brackets escaped.
pub(crate) fn desc_escape_chars(s: &[char], a: usize, b: usize) -> (r: Vec<char>)
    requires
        a <= b <= s@.len(),
    ensures
        r@ == desc_escape(s@.subrange(a as int, b as int)),
{
    let mut out: Vec<char> = Vec::new();
    let mut j: usize = a;
    assert(s@.subrange(a as int, a as int).len() == 0);
    while j < b
        invariant
            a <= j <= b <= s@.len(),
            out@ == desc_escape(s@.subrange(a as int, j as int)),
        decreases b - j,
    {
        let ghost prev = s@.subrange(a as int, j as int);
        let ghost before = out@;
        let c = s[j];
        if c == '[' {
            out.push('\\');
            out.push('[');
        } else if c == ']' {
            out.push('\\');
            out.push(']');
        } else {
            out.push(c);
        }
        proof {
            let nxt = s@.subrange(a as int, j + 1);
            assert(nxt.drop_last() =~= prev);
            assert(nxt[nxt.len() - 1] == c);
            assert(out@ =~= before + desc_char(c));
        }
        j += 1;
    }
    out
}

/// `s` with `&` escaped by a backslash.
pub(crate) fn amp_escape_chars(s: &[char]) -> (r: Vec<char>)
    ensures
        r@ == amp_escape(s@),
{
    let mut out: Vec<char> = Vec::new();
    let mut j: usize = 0;
    while j < s.len()
        invariant
            j <= s@.len(),
            out@ == amp_escape(s@.take(j as int)),
        decreases s.len() - j,
    {
        let ghost before = out@;
        let c = s[j];
        if c == '&' {
            out.push('\\');
            out.push('&');
        } else {
            out.push(c);
        }
        proof {
            let nxt = s@.take(j + 1);
            assert(nxt.drop_last() =~= s@.take(j as int));
            assert(nxt[nxt.len() - 1] == c);
            assert(out@ =~= amp_escape(nxt));
        }
        j += 1;
    }
    assert(s@.take(s@.len() as int) =~= s@);
    out
}

/// Whether the path names an image, by its extension in lower case.
pub(crate) fn image_path(path: &[char]) -> (r: bool)
    ensures
        r == is_image_path(path@),
{
    let lower = lowercase(path);
    ends_with_str(&lower, ".png") || ends_with_str(&lower, ".jpg") || ends_with_str(&lower, ".jpeg")
        || ends_with_str(&lower, ".gif") || ends_with_str(&lower, ".svg") || ends_with_str(
        &lower,
        ".webp",
    )
}

/// A one-node sequence.
fn single(n: AstNode) -> (r: Vec<AstNode>)
    ensures
        nodes_view(r@) == seq![n@],
{
    let mut v: Vec<AstNode> = Vec::new();
    let ghost nv = n@;
    v.push(n);
    proof {
        lemma_nodes_view_push(Seq::<AstNode>::empty(), v@[0]);
        assert(Seq::<AstNode>::empty().push(v@[0]) =~= v@);
    }
    v
}

/// A link node holding `children` and pointing at `url`.
fn make_link(children: Vec<AstNode>, url: &[char]) -> (r: AstNode)
    ensures
        r@ == link_node(nodes_view(children@), url@),
{
    let u = from_chars(url);
    AstNode::new("link").with_children(children).data_str("url", u.as_str())
}

/// The link or image at `start` (which holds `[[`) and the characters it takes.
fn link_or_image_at(s: &[char], start: usize, al: &LinkAliases) -> (r: (AstNode, usize))
    requires
        start + 1 < s@.len(),
        s@[start as int] == '[',
        s@[start + 1] == '[',
    ensures
        (r.0@, r.1 as int) == spec_link_or_image(s@, al@, start as int),
        r.1 as int == link_parts(s@, start as int).2,
    decreases dbl(s@), s@.len(), 0int,
{
    let len = s.len();
    let tc = target_close_at(s, start + 2);
    proof {
        lemma_target_close(s@, start + 2, 1);
    }
    let e = match tc {
        Some(k) => k,
        None => len,
    };
    let target = slice(s, start + 2, e);
    let mut i: usize = match tc {
        Some(k) => k + 1,
        None => len,
    };
    let mut desc: Option<Vec<char>> = None;
    if i < len && s[i] == '[' {
        let dc = desc_close_at(s, i + 1);
        proof {
            lemma_desc_close(s@, i + 1);
        }
        match dc {
            Some(k) => {
                desc = Some(desc_escape_chars(s, i + 1, k));
                i = k + 2;
            },
            None => {
                desc = Some(desc_escape_chars(s, i + 1, len));
                i = len;
            },
        }
    } else if i < len && s[i] == ']' {
        i = i + 1;
    }
    let consumed = i - start;
    let ghost dv: Option<Seq<char>> = match &desc {
        Some(d) => Some(d@),
        None => None,
    };
    proof {
        lemma_link_parts(s@, start as int);
        lemma_dbl_pos(s@, start as int);
        lemma_dbl_sub(s@, start + 2, e as int);
        assert(link_parts(s@, start as int) == (target@, dv, consumed as int));
        if dv is Some {
            lemma_no_dbl_zero(dv->0);
        }
    }
    if starts_with_str(&target, "file:") {
        proof {
            reveal_strlit("file:");
            lemma_dbl_skip(target@, 5);
        }
        let path = slice(&target, 5, target.len());
        if image_path(&path) {
            let alt = match desc {
                Some(d) => d,
                None => slice(&target, 5, target.len()),
            };
            let ps = from_chars(&path);
            let alts = from_chars(&alt);
            let node = AstNode::new("image").data_str("url", ps.as_str()).data_str("alt", alts.as_str());
            return (node, consumed);
        } else {
            let text = match desc {
                Some(d) => d,
                None => slice(&target, 5, target.len()),
            };
            let kids = inline_nodes(&text, al);
            let mut url = to_chars("file:");
            push_all(&mut url, &path);
            return (make_link(kids, &url), consumed);
        }
    }
    match al.get(&target) {
        Some(url) => {
            let text = match desc {
                Some(d) => d,
                None => slice(&target, 0, target.len()),
            };
            proof {
                assert(target@.subrange(0, target@.len() as int) =~= target@);
            }
            let kids = inline_nodes(&text, al);
            let esc = escape_url_parens_chars(&url);
            return (make_link(kids, &esc), consumed);
        },
        None => {},
    }
    let mut via: Option<Vec<char>> = None;
    match find_char_at(&target, ':', 0) {
        Some(k) => {
            let alias = slice(&target, 0, k);
            let suffix = slice(&target, k + 1, target.len());
            match al.get(&alias) {
                Some(base) => {
                    let mut full = base;
                    push_all(&mut full, &suffix);
                    via = Some(full);
                },
                None => {},
            }
        },
        None => {},
    }
    match via {
        Some(full_url) => {
            let text = match desc {
                Some(d) => d,
                None => slice(&target, 0, target.len()),
            };
            proof {
                assert(target@.subrange(0, target@.len() as int) =~= target@);
            }
            let kids = inline_nodes(&text, al);
            let esc = escape_url_parens_chars(&full_url);
            (make_link(kids, &esc), consumed)
        },
        None => {
            let esc = escape_url_parens_chars(&target);
            match desc {
                Some(d) => {
                    let kids = inline_nodes(&d, al);
                    (make_link(kids, &esc), consumed)
                },
                None => {
                    let t = amp_escape_chars(&target);
                    let ts = from_chars(&t);
                    let kids = single(AstNode::text(ts.as_str()));
                    (make_link(kids, &esc), consumed)
                },
            }
        },
    }
}

/// The object the pending attributes `m` make: their entries ordered by key.
fn attr_object_data(m: Vec<DataEntry>) -> (r: Vec<DataEntry>)
    ensures
        entries_view(r@) == attr_object(entries_view(m@)),
{
    let ghost whole = entries_view(m@);
    let mut rest = m;
    let mut out: Vec<DataEntry> = Vec::new();
    assert(entries_view(out@) =~= Seq::<(Seq<char>, SValue)>::empty());
    while rest.len() > 0
        invariant
            attr_fold(Seq::empty(), whole) == attr_fold(entries_view(out@), entries_view(rest@)),
        decreases rest.len(),
    {
        proof {
            lemma_entries_view_index(rest@);
        }
        let ghost rv = entries_view(rest@);
        let e = rest.remove(0);
        proof {
            lemma_entries_view_index(rest@);
            assert(entries_view(rest@) =~= rv.drop_first());
        }
        let k = to_chars(e.key.as_str());
        obj_insert_data(&mut out, &k, e.value);
    }
    out
}

/// A link or image node holds no `attr_html` data of its own.
proof fn lemma_link_no_attr(s: Seq<char>, al: Seq<(Seq<char>, Seq<char>)>, start: int)
    ensures
        lookup(spec_link_or_image(s, al, start).0.data, "attr_html"@) is None,
{
    reveal_strlit("attr_html");
    reveal_strlit("url");
    reveal_strlit("alt");
    assert("attr_html"@ != "url"@) by {
        assert("attr_html"@[0] != "url"@[0]);
    }
    assert("attr_html"@ != "alt"@) by {
        assert("attr_html"@.len() != "alt"@.len());
    }
    assert forall|c: Seq<SNode>, u: Seq<char>| lookup(#[trigger] link_node(c, u).data, "attr_html"@) is None by {
        let e = SNode::empty("link"@).with_children(c);
        law_data_read_after_write(e, "url"@, SValue::Str(u), "attr_html"@);
    }
    assert forall|k: Seq<char>, u: Seq<char>, a: Seq<char>| lookup(
        #[trigger] SNode::empty(k).with_data("url"@, SValue::Str(u)).with_data("alt"@, SValue::Str(a)).data,
        "attr_html"@,
    ) is None by {
        let e = SNode::empty(k);
        law_data_read_after_write(e, "url"@, SValue::Str(u), "attr_html"@);
        law_data_read_after_write(e.with_data("url"@, SValue::Str(u)), "alt"@, SValue::Str(a), "attr_html"@);
    }
}

/// The link or image at `start` (which holds `[[`) and the characters it takes; the
/// pending `#+ATTR_HTML` attributes, if any, become its `attr_html` data, and none are
/// left pending.
fn parse_link_or_image(
    s: &[char],
    start: usize,
    al: &LinkAliases,
    pending_attr_html: &mut Option<Vec<DataEntry>>,
) -> (r: (AstNode, usize))
    requires
        start + 1 < s@.len(),
        s@[start as int] == '[',
        s@[start + 1] == '[',
    ensures
        r.0@ == with_attr_html(spec_link_or_image(s@, al@, start as int).0, pending_view(*old(pending_attr_html))),
        r.1 as int == link_parts(s@, start as int).2,
        2 <= r.1 && start + r.1 <= s@.len(),
        *final(pending_attr_html) is None,
        match *old(pending_attr_html) {
            Some(m) => if m@.len() > 0 {
                lookup(r.0@.data, "attr_html"@) == Some(SValue::Object(attr_object(entries_view(m@))))
            } else {
                lookup(r.0@.data, "attr_html"@) is None
            },
            None => lookup(r.0@.data, "attr_html"@) is None,
        },
{
    proof {
        lemma_link_parts(s@, start as int);
        lemma_link_no_attr(s@, al@, start as int);
        let ln = spec_link_or_image(s@, al@, start as int).0;
        if let Some(m) = *old(pending_attr_html) {
            lemma_entries_view_index(m@);
            law_data_read_after_write(ln, "attr_html"@, SValue::Object(attr_object(entries_view(m@))), "attr_html"@);
        }
    }
    let (node, n) = link_or_image_at(s, start, al);
    let mut taken: Option<Vec<DataEntry>> = None;
    std::mem::swap(&mut taken, pending_attr_html);
    match taken {
        Some(m) => {
            proof {
                lemma_entries_view_index(m@);
            }
            if m.len() > 0 {
                let obj = attr_object_data(m);
                (node.with_data("attr_html", DataValue::Object(obj)), n)
            } else {
                (node, n)
            }
        },
        None => (node, n),
    }
}

/// `p` starts the rest of `s` from `i` exactly when it occurs at `i`.
pub(crate) proof fn lemma_prefix_at(s: Seq<char>, p: Seq<char>, i: int)
    requires
        0 <= i <= s.len(),
    ensures
        has_prefix(s.subrange(i, s.len() as int), p) == occurs_at(s, p, i),
{
    if p.len() <= s.len() - i {
        assert(s.subrange(i, s.len() as int).subrange(0, p.len() as int) =~= s.subrange(i, i + p.len()));
    }
}

/// The next node of `s` from `i` and where the rest starts.
fn inline_step(s: &[char], al: &LinkAliases, i: usize) -> (r: (AstNode, usize))
    requires
        i < s@.len(),
    ensures
        i < r.1 <= s@.len(),
        r.1 as int == step_end(s@, i as int),
        spec_inline_from(s@, al@, i as int) == seq![r.0@] + spec_inline_from(s@, al@, r.1 as int),
    decreases dbl(s@), s@.len(), 2int,
{
    let len = s.len();
    if i + 1 < len && s[i] == '[' && s[i + 1] == '[' {
        let (node, n) = link_or_image_at(s, i, al);
        proof {
            lemma_link_parts(s@, i as int);
        }
        return (node, i + n);
    }
    let http = to_chars("http://");
    let https = to_chars("https://");
    proof {
        lemma_prefix_at(s@, http@, i as int);
        lemma_prefix_at(s@, https@, i as int);
    }
    if matches_at(s, &http, i) || matches_at(s, &https, i) {
        let mut j: usize = i;
        proof {
            reveal_strlit("http://");
            reveal_strlit("https://");
            if occurs_at(s@, http@, i as int) {
                assert(s@.subrange(i as int, i + 7)[0] == s@[i as int]);
            } else {
                assert(s@.subrange(i as int, i + 8)[0] == s@[i as int]);
            }
        }
        while j < len && !is_whitespace(s[j])
            invariant
                i <= j <= len == s@.len(),
                url_end(s@, i as int) == url_end(s@, j as int),
            decreases len - j,
        {
            j += 1;
        }
        assert(j > i);
        let url = slice(s, i, j);
        let us = from_chars(&url);
        let esc = escape_url_parens_chars(&url);
        let kids = single(AstNode::text(us.as_str()));
        return (make_link(kids, &esc), j);
    }
    let c = s[i];
    if c == '*' || c == '/' || c == '+' {
        match markup_at(s, i, c) {
            Some((inner, n)) => {
                proof {
                    lemma_markup_end(s@, c, i + 1);
                    lemma_dbl_sub(s@, i + 1, i + n - 1);
                }
                let kids = inline_nodes(&inner, al);
                let kind = if c == '*' {
                    "strong"
                } else if c == '/' {
                    "emphasis"
                } else {
                    "delete"
                };
                return (AstNode::new(kind).with_children(kids), i + n);
            },
            None => {},
        }
    }
    inline_tail_step(s, al, i)
}

/// The next node of `s` from `i` when no link, bare URL, bold, italic or strike-through
/// starts there, and where the rest starts.
fn inline_tail_step(s: &[char], al: &LinkAliases, i: usize) -> (r: (AstNode, usize))
    requires
        i < s@.len(),
    ensures
        i < r.1 <= s@.len(),
        r.1 as int == tail_end(s@, i as int),
        spec_inline_tail(s@, al@, i as int) == seq![r.0@] + spec_inline_from(s@, al@, r.1 as int),
    decreases dbl(s@), s@.len(), 1int,
{
    let len = s.len();
    let c = s[i];
    proof {
        lemma_markup_end(s@, c, i + 1);
    }
    if c == '=' || c == '~' {
        match markup_at(s, i, c) {
            Some((inner, n)) => {
                let v = from_chars(&inner);
                return (AstNode::new("inlineCode").with_value(v.as_str()), i + n);
            },
            None => {},
        }
    }
    if c == '~' {
        proof {
            reveal_strlit("~");
            assert("~"@ =~= seq!['~']);
        }
        return (AstNode::text("~"), i + 1);
    }
    if c == '_' {
        if i + 1 < len && s[i + 1] == '{' {
            match parse_braced(s, i + 1) {
                Some((inner, n)) => {
                    proof {
                        lemma_brace_end(s@, i + 2, 1);
                        lemma_dbl_sub(s@, i + 2, i + n);
                    }
                    let kids = inline_nodes(&inner, al);
                    return (AstNode::new("subscript").with_children(kids), i + n + 1);
                },
                None => {},
            }
        }
        match markup_at(s, i, '_') {
            Some((inner, n)) => {
                proof {
                    lemma_dbl_sub(s@, i + 1, i + n - 1);
                }
                let kids = inline_nodes(&inner, al);
                return (AstNode::new("underline").with_children(kids), i + n);
            },
            None => {},
        }
    }
    if c == '^' && i + 1 < len && s[i + 1] == '{' {
        match parse_braced(s, i + 1) {
            Some((inner, n)) => {
                proof {
                    lemma_brace_end(s@, i + 2, 1);
                    lemma_dbl_sub(s@, i + 2, i + n);
                }
                let kids = inline_nodes(&inner, al);
                return (AstNode::new("superscript").with_children(kids), i + n + 1);
            },
            None => {},
        }
    }
    if c == '$' {
        if i + 1 < len && s[i + 1] == '$' {
            match find_closing_double_dollar(s, i + 2) {
                Some((inner, n)) => {
                    proof {
                        lemma_dd_end(s@, i + 2, i + 2);
                    }
                    let v = from_chars(&inner);
                    return (AstNode::new("displayMath").with_value(v.as_str()), i + n + 2);
                },
                None => {},
            }
        } else if i + 1 < len {
            let next = s[i + 1];
            if is_alphabetic(next) || next == '\\' || next == '{' || next == '(' || next == '_' || next
                == '^' {
                match find_closing_dollar(s, i + 1) {
                    Some((inner, n)) => {
                        proof {
                            lemma_dollar_end(s@, i + 1, i + 1);
                        }
                        let v = from_chars(&inner);
                        return (AstNode::new("inlineMath").with_value(v.as_str()), i + n + 1);
                    },
                    None => {},
                }
            }
        }
    }
    let mut one: Vec<char> = Vec::new();
    one.push(c);
    let t = from_chars(&one);
    assert(one@ =~= seq![c]);
    (AstNode::text(t.as_str()), i + 1)
}

/// The inline nodes of `s`.
fn inline_nodes(s: &[char], al: &LinkAliases) -> (r: Vec<AstNode>)
    ensures
        nodes_view(r@) == spec_inline_from(s@, al@, 0),
    decreases dbl(s@), s@.len(), 3int,
{
    let mut result: Vec<AstNode> = Vec::new();
    let mut i: usize = 0;
    assert(nodes_view(result@) =~= Seq::<SNode>::empty());
    assert(spec_inline_from(s@, al@, 0) =~= nodes_view(result@) + spec_inline_from(s@, al@, 0));
    while i < s.len()
        invariant
            i <= s@.len(),
            spec_inline_from(s@, al@, 0) == nodes_view(result@) + spec_inline_from(s@, al@, i as int),
        decreases s.len() - i,
    {
        let (node, next) = inline_step(s, al, i);
        let ghost before = nodes_view(result@);
        let ghost nv = node@;
        proof {
            lemma_nodes_view_push(result@, node);
        }
        result.push(node);
        proof {
            assert(before.push(nv) + spec_inline_from(s@, al@, next as int) =~= before + (seq![nv]
                + spec_inline_from(s@, al@, next as int)));
        }
        i = next;
    }
    assert(nodes_view(result@) + spec_inline_from(s@, al@, i as int) =~= nodes_view(result@));
    result
}

/// The inline nodes of `s`, the first `[[...]]` link or image taking the pending
/// attributes.
fn inline_nodes_attr(s: &[char], al: &LinkAliases, pending_attr_html: &mut Option<Vec<DataEntry>>) -> (r: Vec<AstNode>)
    ensures
        nodes_view(r@) == spec_inline_attr(s@, al@, 0, pending_view(*old(pending_attr_html))),
        pending_view(*final(pending_attr_html)) == spec_attr_left(s@, al@, 0, pending_view(*old(pending_attr_html))),
{
    let ghost p0 = pending_view(*pending_attr_html);
    let mut result: Vec<AstNode> = Vec::new();
    let mut i: usize = 0;
    assert(nodes_view(result@) =~= Seq::<SNode>::empty());
    assert(spec_inline_attr(s@, al@, 0, p0) =~= nodes_view(result@) + spec_inline_attr(s@, al@, 0, p0));
    while i < s.len()
        invariant
            i <= s@.len(),
            spec_inline_attr(s@, al@, 0, p0) == nodes_view(result@) + spec_inline_attr(
                s@,
                al@,
                i as int,
                pending_view(*pending_attr_html),
            ),
            spec_attr_left(s@, al@, 0, p0) == spec_attr_left(s@, al@, i as int, pending_view(*pending_attr_html)),
        decreases s.len() - i,
    {
        let ghost before = nodes_view(result@);
        let ghost p = pending_view(*pending_attr_html);
        if i + 1 < s.len() && s[i] == '[' && s[i + 1] == '[' {
            let (node, n) = parse_link_or_image(s, i, al, pending_attr_html);
            proof {
                lemma_link_parts(s@, i as int);
                lemma_nodes_view_push(result@, node);
            }
            let ghost nv = node@;
            result.push(node);
            proof {
                assert(spec_inline_attr(s@, al@, i as int, p) == seq![nv] + spec_inline_attr(s@, al@, i + n, None));
                assert(spec_attr_left(s@, al@, i as int, p) == spec_attr_left(s@, al@, i + n, None)) by {
                    lemma_inline_attr_none(s@, al@, i + n);
                }
                assert(before.push(nv) + spec_inline_attr(s@, al@, i + n, None) =~= before + (seq![nv]
                    + spec_inline_attr(s@, al@, i + n, None)));
            }
            i = i + n;
        } else {
            let (node, j) = inline_step(s, al, i);
            proof {
                lemma_step_end(s@, al@, i as int);
                lemma_nodes_view_push(result@, node);
            }
            let ghost nv = node@;
            result.push(node);
            proof {
                assert((seq![nv] + spec_inline_from(s@, al@, j as int))[0] == nv);
                assert(spec_inline_attr(s@, al@, i as int, p) == seq![nv] + spec_inline_attr(s@, al@, j as int, p));
                assert(before.push(nv) + spec_inline_attr(s@, al@, j as int, p) =~= before + (seq![nv]
                    + spec_inline_attr(s@, al@, j as int, p)));
            }
            i = j;
        }
    }
    assert(nodes_view(result@) + spec_inline_attr(s@, al@, i as int, pending_view(*pending_attr_html))
        =~= nodes_view(result@));
    result
}

/// Parses the inline markup of the characters `text`.
pub fn parse_inline_chars(text: &[char], link_aliases: &LinkAliases) -> (r: Vec<AstNode>)
    ensures
        nodes_view(r@) == spec_parse_inline(text@, link_aliases@),
{
    inline_nodes(text, link_aliases)
}

/// Parses the inline markup of `text`, resolving `[[...]]` links through `link_aliases`.
/// The first `[[...]]` link or image takes the pending `#+ATTR_HTML` attributes as its
/// `attr_html` data (when there are any) and clears them; without one they stay pending.
pub fn parse_inline(
    text: &str,
    link_aliases: &LinkAliases,
    pending_attr_html: &mut Option<Vec<DataEntry>>,
) -> (r: Vec<AstNode>)
    ensures
        nodes_view(r@) == spec_inline_attr(text@, link_aliases@, 0, pending_view(*old(pending_attr_html))),
        pending_view(*final(pending_attr_html)) == spec_attr_left(
            text@,
            link_aliases@,
            0,
            pending_view(*old(pending_attr_html)),
        ),
        *old(pending_attr_html) is None ==> nodes_view(r@) == spec_parse_inline(text@, link_aliases@),
{
    let chars = to_chars(text);
    proof {
        lemma_inline_attr_none(chars@, link_aliases@, 0);
    }
    inline_nodes_attr(&chars, link_aliases, pending_attr_html)
}


// ------------------------------------------------------------------
// What each markup character means
// ------------------------------------------------------------------

proof fn lemma_markup_end_last(s: Seq<char>, delim: char, i: int)
    requires
        1 <= i < s.len(),
        s[s.len() - 1] == delim,
        forall|j: int| i <= j < s.len() - 1 ==> s[j] != delim,
    ensures
        markup_end(s, delim, i) == Some(s.len() - 1),
    decreases s.len() - i,
{
    if i < s.len() - 1 {
        lemma_markup_end_last(s, delim, i + 1);
    }
}

/// What a text wrapped in one markup character reads as, when the character does not
/// occur inside it: `*` strong, `/` emphasis, `+` strike-through, `_` underline (when
/// the text does not start with `{`), `=` and `~` inline code holding the text; the
/// wrapped text is read in turn.
pub proof fn law_org_markup_kinds(w: Seq<char>, al: Seq<(Seq<char>, Seq<char>)>, c: char)
    requires
        c == '*' || c == '/' || c == '+' || c == '_' || c == '=' || c == '~',
        forall|i: int| 0 <= i < w.len() ==> #[trigger] w[i] != c,
        c == '_' ==> (w.len() == 0 || w[0] != '{'),
    ensures
        spec_parse_inline(seq![c] + w + seq![c], al) == seq![
            if c == '=' || c == '~' {
                SNode::empty("inlineCode"@).with_value(w)
            } else {
                SNode::empty(
                    if c == '*' {
                        "strong"@
                    } else if c == '/' {
                        "emphasis"@
                    } else if c == '+' {
                        "delete"@
                    } else {
                        "underline"@
                    },
                ).with_children(spec_parse_inline(w, al))
            },
        ],
{
    reveal_strlit("http://");
    reveal_strlit("https://");
    let s = seq![c] + w + seq![c];
    let n = s.len() as int;
    assert(s[0] == c);
    assert(s[n - 1] == c);
    assert forall|j: int| 1 <= j < n - 1 implies s[j] != c by {
        assert(s[j] == w[j - 1]);
    }
    lemma_markup_end_last(s, c, 1);
    assert(s.subrange(1, n - 1) =~= w);
    let rest = s.subrange(0, n);
    assert(!has_prefix(rest, "http://"@)) by {
        if has_prefix(rest, "http://"@) {
            assert(rest.subrange(0, 7)[0] == rest[0]);
        }
    }
    assert(!has_prefix(rest, "https://"@)) by {
        if has_prefix(rest, "https://"@) {
            assert(rest.subrange(0, 8)[0] == rest[0]);
        }
    }
    assert(spec_inline_from(s, al, n) == Seq::<SNode>::empty());
    assert(spec_markup_at(s, 0, c) == Some((w, n)));
    assert(!(1 < n && s[0] == '[' && s[1] == '['));
    if c == '*' || c == '/' || c == '+' {
        let kind = if c == '*' {
            "strong"@
        } else if c == '/' {
            "emphasis"@
        } else {
            "delete"@
        };
        assert(spec_inline_from(s, al, 0) == seq![SNode::empty(kind).with_children(spec_inline_from(w, al, 0))]
            + spec_inline_from(s, al, n));
    } else {
        assert(spec_inline_from(s, al, 0) == spec_inline_tail(s, al, 0));
        if c == '_' {
            assert(!(0 + 1 < n && s[1] == '{' && spec_parse_braced(s, 1) is Some)) by {
                if w.len() > 0 {
                    assert(s[1] == w[0]);
                }
            }
            assert(spec_inline_tail(s, al, 0) == seq![SNode::empty("underline"@).with_children(
                spec_inline_from(w, al, 0),
            )] + spec_inline_from(s, al, n));
        } else {
            assert(spec_inline_tail(s, al, 0) == seq![SNode::empty("inlineCode"@).with_value(w)]
                + spec_inline_from(s, al, n));
        }
    }
}

} // verus!
