//! Small text utilities shared by the parsers and renderers: keyword lines,
//! URL and YAML escaping, and the conversions between Org and ISO dates.
use vstd::prelude::*;
use vstd::utf8::{encode_scalar, encode_utf8};
use crate::text::{
    ascii_upper, dec_chars, find_char_at, fmt_int, fmt_int_chars, from_chars, has_prefix,
    is_ascii_alnum, lowercase, parse_i32, parse_i32_spec, parse_u32, parse_unsigned, push_all,
    push_str, slice, split, split_chars, split_whitespace, starts_with, str_lowercase,
    str_uppercase, to_chars, trim, trim_chars, trim_start, trim_start_chars, uppercase, views,
    words, char_from_ascii,
};

pub mod date_law;
pub mod tag_rewrite;

pub use tag_rewrite::{html_to_jsx, jsx_to_html};


verus! {

// ------------------------------------------------------------------
// Spaces
// ------------------------------------------------------------------

/// `s` with every run of spaces shortened to one space.
pub open spec fn spec_collapse_spaces(s: Seq<char>) -> Seq<char>
    decreases s.len(),
{
    if s.len() == 0 {
        s
    } else {
        let p = spec_collapse_spaces(s.drop_last());
        let c = s[s.len() - 1];
        if c == ' ' && p.len() > 0 && p[p.len() - 1] == ' ' {
            p
        } else {
            p.push(c)
        }
    }
}

/// Replaces every run of spaces with a single space.
pub fn collapse_spaces(s: &str) -> (r: String)
    ensures
        r@ == spec_collapse_spaces(s@),
{
    let v = to_chars(s);
    from_chars(&collapse_spaces_chars(&v))
}

pub fn collapse_spaces_chars(s: &[char]) -> (r: Vec<char>)
    ensures
        r@ == spec_collapse_spaces(s@),
{
    let mut out: Vec<char> = Vec::new();
    let mut i: usize = 0;
    while i < s.len()
        invariant
            i <= s@.len(),
            out@ == spec_collapse_spaces(s@.take(i as int)),
        decreases s.len() - i,
    {
        assert(s@.take(i + 1).drop_last() =~= s@.take(i as int));
        let c = s[i];
        if !(c == ' ' && out.len() > 0 && out[out.len() - 1] == ' ') {
            out.push(c);
        }
        i += 1;
    }
    assert(s@.take(s.len() as int) =~= s@);
    out
}

/// No two spaces of `s` stand next to each other.
pub open spec fn no_double_space(s: Seq<char>) -> bool {
    forall|i: int, j: int| 0 <= i && j == i + 1 && j < s.len() ==> !(#[trigger] s[i] == ' ' && #[trigger] s[j] == ' ')
}

/// Collapsing leaves no two spaces side by side, and collapsing twice is collapsing once.
pub proof fn law_collapse_spaces(s: Seq<char>)
    ensures
        no_double_space(spec_collapse_spaces(s)),
        spec_collapse_spaces(spec_collapse_spaces(s)) == spec_collapse_spaces(s),
{
    lemma_collapse_no_double(s);
    lemma_collapse_fixed(spec_collapse_spaces(s));
}

proof fn lemma_collapse_no_double(s: Seq<char>)
    ensures
        no_double_space(spec_collapse_spaces(s)),
    decreases s.len(),
{
    if s.len() > 0 {
        lemma_collapse_no_double(s.drop_last());
    }
}

proof fn lemma_collapse_fixed(t: Seq<char>)
    requires
        no_double_space(t),
    ensures
        spec_collapse_spaces(t) == t,
    decreases t.len(),
{
    if t.len() > 0 {
        assert(no_double_space(t.drop_last()));
        lemma_collapse_fixed(t.drop_last());
        assert(t.drop_last().push(t[t.len() - 1]) =~= t);
    }
}

/// The number of leading spaces and tabs of `s`, at most `n`, from index `i` on.
pub open spec fn indent_run(s: Seq<char>, i: int, n: int) -> int
    decreases s.len() - i,
{
    if 0 <= i < n && i < s.len() && (s[i] == ' ' || s[i] == '\t') {
        indent_run(s, i + 1, n)
    } else {
        i
    }
}

/// `s` without up to `n` leading spaces or tabs.
pub open spec fn spec_strip_prefix_spaces(s: Seq<char>, n: int) -> Seq<char> {
    s.subrange(indent_run(s, 0, n), s.len() as int)
}

pub proof fn lemma_indent_run(s: Seq<char>, i: int, n: int)
    requires
        0 <= i <= s.len(),
    ensures
        i <= indent_run(s, i, n) <= s.len(),
    decreases s.len() - i,
{
    if 0 <= i < n && i < s.len() && (s[i] == ' ' || s[i] == '\t') {
        lemma_indent_run(s, i + 1, n);
    }
}

/// Removes at most `n` leading spaces or tabs.
pub fn strip_prefix_spaces(s: &str, n: usize) -> (r: String)
    ensures
        r@ == spec_strip_prefix_spaces(s@, n as int),
{
    let v = to_chars(s);
    from_chars(&strip_prefix_spaces_chars(&v, n))
}

pub fn strip_prefix_spaces_chars(s: &[char], n: usize) -> (r: Vec<char>)
    ensures
        r@ == spec_strip_prefix_spaces(s@, n as int),
{
    proof {
        lemma_indent_run(s@, 0, n as int);
    }
    let mut count: usize = 0;
    while count < n && count < s.len() && (s[count] == ' ' || s[count] == '\t')
        invariant
            count <= s@.len(),
            indent_run(s@, 0, n as int) == indent_run(s@, count as int, n as int),
        decreases s.len() - count,
    {
        count += 1;
    }
    slice(s, count, s.len())
}

// ------------------------------------------------------------------
// Keyword lines
// ------------------------------------------------------------------

/// The number of UTF-8 bytes of `s`.
pub open spec fn utf8_len(s: Seq<char>) -> nat {
    vstd::utf8::encode_utf8(s).len()
}

/// The number of characters of `s` whose UTF-8 encoding takes `b` bytes, if
/// byte `b` falls on a character boundary of `s`.
pub open spec fn char_index_at_byte(s: Seq<char>, b: int) -> Option<int>
    decreases s.len(),
{
    if b == 0 {
        Some(0)
    } else if s.len() == 0 || b < 0 {
        None
    } else {
        let w = encode_scalar(s[0] as u32).len() as int;
        match char_index_at_byte(s.drop_first(), b - w) {
            Some(k) => Some(k + 1),
            None => None,
        }
    }
}

/// What `kw(line, keyword)` returns: the trimmed text after `#+KEYWORD:` at the start of
/// the line, matched without regard to case, or after `#+keyword:` in lower case.
/// When the upper-cased line starts with the keyword but its byte length falls inside a
/// character of the line, no value is returned.
pub open spec fn spec_kw(line: Seq<char>, keyword: Seq<char>) -> Option<Seq<char>> {
    let prefix = "#+"@ + str_uppercase(keyword) + ":"@;
    let lp = "#+"@ + str_lowercase(keyword) + ":"@;
    let t = trim_start(line);
    if has_prefix(str_uppercase(t), prefix) {
        match char_index_at_byte(t, utf8_len(prefix) as int) {
            Some(k) => if k <= t.len() {
                Some(trim(t.subrange(k, t.len() as int)))
            } else {
                None
            },
            None => None,
        }
    } else if has_prefix(t, lp) {
        Some(trim(t.subrange(lp.len() as int, t.len() as int)))
    } else {
        None
    }
}

/// The number of UTF-8 bytes of `c`.
pub fn char_utf8_len(c: char) -> (n: usize)
    ensures
        n == encode_scalar(c as u32).len(),
{
    let v = c as u32;
    if v <= 0x7f {
        1
    } else if v <= 0x7ff {
        2
    } else if v <= 0xffff {
        3
    } else {
        4
    }
}

proof fn lemma_encode_push(s: Seq<char>, c: char)
    ensures
        vstd::utf8::encode_utf8(s.push(c)) == vstd::utf8::encode_utf8(s) + encode_scalar(c as u32),
    decreases s.len(),
{
    if s.len() > 0 {
        assert(s.push(c).drop_first() =~= s.drop_first().push(c));
        assert(s.push(c)[0] == s[0]);
        lemma_encode_push(s.drop_first(), c);
        assert(vstd::utf8::encode_utf8(s.push(c)) =~= encode_scalar(s[0] as u32)
            + vstd::utf8::encode_utf8(s.drop_first().push(c)));
        assert(vstd::utf8::encode_utf8(s.push(c)) =~= vstd::utf8::encode_utf8(s) + encode_scalar(
            c as u32,
        ));
    } else {
        assert(s.push(c).drop_first() =~= Seq::<char>::empty());
        assert(vstd::utf8::encode_utf8(s.push(c)) =~= encode_scalar(c as u32) + vstd::utf8::encode_utf8(
            Seq::<char>::empty(),
        ));
        assert(vstd::utf8::encode_utf8(s) =~= Seq::<u8>::empty());
        assert(vstd::utf8::encode_utf8(s.push(c)) =~= vstd::utf8::encode_utf8(s) + encode_scalar(
            c as u32,
        ));
    }
}

proof fn lemma_utf8_len_push(s: Seq<char>, c: char)
    ensures
        utf8_len(s.push(c)) == utf8_len(s) + encode_scalar(c as u32).len(),
{
    lemma_encode_push(s, c);
}

/// The number of UTF-8 bytes of `s`.
pub fn utf8_len_of(s: &[char]) -> (n: u128)
    ensures
        n == utf8_len(s@),
{
    proof {
        lemma_utf8_len_bound(s@);
    }
    let mut n: u128 = 0;
    let mut i: usize = 0;
    while i < s.len()
        invariant
            i <= s@.len(),
            n == utf8_len(s@.take(i as int)),
            utf8_len(s@) <= 4 * s@.len(),
            s@.len() == s.len(),
        decreases s.len() - i,
    {
        proof {
            lemma_utf8_len_push(s@.take(i as int), s@[i as int]);
            assert(s@.take(i + 1) =~= s@.take(i as int).push(s@[i as int]));
            lemma_utf8_len_prefix(s@, i + 1);
        }
        n = n + char_utf8_len(s[i]) as u128;
        i += 1;
    }
    assert(s@.take(s.len() as int) =~= s@);
    n
}

proof fn lemma_utf8_len_prefix(s: Seq<char>, k: int)
    requires
        0 <= k <= s.len(),
    ensures
        utf8_len(s.take(k)) <= utf8_len(s),
    decreases s.len() - k,
{
    if k < s.len() {
        lemma_utf8_len_prefix(s, k + 1);
        lemma_utf8_len_push(s.take(k), s[k]);
        assert(s.take(k + 1) =~= s.take(k).push(s[k]));
    } else {
        assert(s.take(k) =~= s);
    }
}

/// Finds the character index at which byte `b` of `s` begins.
fn index_at_byte(s: &[char], b: u128) -> (r: Option<usize>)
    ensures
        r matches Some(k) ==> char_index_at_byte(s@, b as int) == Some(k as int) && k <= s@.len(),
        r is None ==> char_index_at_byte(s@, b as int) is None,
{
    let mut i: usize = 0;
    let mut left: u128 = b;
    assert(s@.subrange(0, s@.len() as int) =~= s@);
    while left > 0 && i < s.len()
        invariant
            i <= s@.len(),
            left <= b,
            char_index_at_byte(s@, b as int) == match char_index_at_byte(s@.subrange(i as int, s@.len() as int), left as int) {
                Some(j) => Some(j + i),
                None => None,
            },
        decreases left,
    {
        let w = char_utf8_len(s[i]) as u128;
        let ghost rest = s@.subrange(i as int, s@.len() as int);
        assert(rest.drop_first() =~= s@.subrange(i + 1, s@.len() as int));
        assert(rest[0] == s@[i as int]);
        if w > left {
            assert(char_index_at_byte(s@.subrange(i + 1, s@.len() as int), left - w) is None);
            return None;
        }
        left = left - w;
        i += 1;
    }
    if left == 0 {
        Some(i)
    } else {
        assert(s@.subrange(i as int, s@.len() as int).len() == 0);
        None
    }
}

/// If `line` (after leading whitespace) starts with `#+KEYWORD:`, in any case, or with
/// `#+keyword:`, returns the trimmed rest of the line.
pub fn kw(line: &str, keyword: &str) -> (r: Option<String>)
    ensures
        r matches Some(v) ==> spec_kw(line@, keyword@) == Some(v@),
        r is None ==> spec_kw(line@, keyword@) is None,
{
    let l = to_chars(line);
    let k = to_chars(keyword);
    match kw_chars(&l, &k) {
        Some(v) => Some(from_chars(&v)),
        None => None,
    }
}

pub fn kw_chars(line: &[char], keyword: &[char]) -> (r: Option<Vec<char>>)
    ensures
        r matches Some(v) ==> spec_kw(line@, keyword@) == Some(v@),
        r is None ==> spec_kw(line@, keyword@) is None,
{
    let mut prefix = to_chars("#+");
    push_all(&mut prefix, &uppercase(keyword));
    push_str(&mut prefix, ":");
    let mut lp = to_chars("#+");
    push_all(&mut lp, &lowercase(keyword));
    push_str(&mut lp, ":");
    let t = trim_start_chars(line);
    let tu = uppercase(&t);
    if starts_with(&tu, &prefix) {
        if prefix.len() > tu.len() {
            return None;
        }
        let b = utf8_len_of(&prefix);
        match index_at_byte(&t, b) {
            Some(k) => {
                let rest = slice(&t, k, t.len());
                Some(trim_chars(&rest))
            },
            None => None,
        }
    } else if starts_with(&t, &lp) {
        let rest = slice(&t, lp.len(), t.len());
        Some(trim_chars(&rest))
    } else {
        None
    }
}

proof fn lemma_utf8_len_bound(s: Seq<char>)
    ensures
        utf8_len(s) <= 4 * s.len(),
    decreases s.len(),
{
    if s.len() > 0 {
        lemma_utf8_len_bound(s.drop_last());
        lemma_utf8_len_push(s.drop_last(), s[s.len() - 1]);
        assert(s.drop_last().push(s[s.len() - 1]) =~= s);
    }
}

// ------------------------------------------------------------------
// Escaping
// ------------------------------------------------------------------

/// The upper-case hexadecimal digit for `n`, below 16.
pub open spec fn hex_digit(n: nat) -> char {
    if n < 10 {
        (('0' as nat) + n) as char
    } else {
        (('A' as nat) + n - 10) as char
    }
}

/// `%XX` for each byte.
pub open spec fn pct_bytes(b: Seq<u8>) -> Seq<char>
    decreases b.len(),
{
    if b.len() == 0 {
        Seq::empty()
    } else {
        pct_bytes(b.drop_last()) + seq![
            '%',
            hex_digit((b[b.len() - 1] / 16) as nat),
            hex_digit((b[b.len() - 1] % 16) as nat),
        ]
    }
}

/// A character that `pct_encode` keeps as it is.
pub open spec fn url_safe(c: char) -> bool {
    is_ascii_alnum(c) || c == '-' || c == '_' || c == '.' || c == '/' || c == '+'
}

/// What `pct_encode` makes of one character.
pub open spec fn pct_char(c: char) -> Seq<char> {
    if url_safe(c) {
        seq![c]
    } else {
        pct_bytes(encode_scalar(c as u32))
    }
}

/// Each character of `s` kept or percent-encoded byte by byte.
pub open spec fn spec_pct_encode(s: Seq<char>) -> Seq<char>
    decreases s.len(),
{
    if s.len() == 0 {
        Seq::empty()
    } else {
        spec_pct_encode(s.drop_last()) + pct_char(s[s.len() - 1])
    }
}

/// The value of an upper-case hexadecimal digit, or -1.
pub open spec fn hex_value(c: char) -> int {
    if '0' <= c <= '9' {
        c as int - '0' as int
    } else if 'A' <= c <= 'F' {
        c as int - 'A' as int + 10
    } else {
        -1
    }
}

/// Percent-decoding: each `%XY` (upper-case hexadecimal) is the byte `0xXY`, any other
/// character its own code as a byte.
pub open spec fn pct_decode(t: Seq<char>) -> Seq<u8>
    decreases t.len(),
{
    if t.len() == 0 {
        Seq::empty()
    } else if t[0] == '%' && t.len() >= 3 && hex_value(t[1]) >= 0 && hex_value(t[2]) >= 0 {
        seq![(hex_value(t[1]) * 16 + hex_value(t[2])) as u8] + pct_decode(t.subrange(3, t.len() as int))
    } else {
        seq![t[0] as u8] + pct_decode(t.subrange(1, t.len() as int))
    }
}

proof fn lemma_pct_bytes_append(a: Seq<u8>, b: Seq<u8>)
    ensures
        pct_bytes(a + b) == pct_bytes(a) + pct_bytes(b),
    decreases b.len(),
{
    if b.len() == 0 {
        assert(a + b =~= a);
        assert(pct_bytes(a) + pct_bytes(b) =~= pct_bytes(a));
    } else {
        lemma_pct_bytes_append(a, b.drop_last());
        assert((a + b).drop_last() =~= a + b.drop_last());
        assert(pct_bytes(a + b) =~= pct_bytes(a) + pct_bytes(b));
    }
}

proof fn lemma_pct_bytes_decode(b: Seq<u8>, rest: Seq<char>)
    ensures
        pct_decode(pct_bytes(b) + rest) == b + pct_decode(rest),
        forall|i: int| 0 <= i < pct_bytes(b).len() ==> #[trigger] pct_bytes(b)[i] == '%' || is_ascii_alnum(
            pct_bytes(b)[i],
        ),
    decreases b.len(),
{
    if b.len() == 0 {
        assert(pct_bytes(b) + rest =~= rest);
        assert(b + pct_decode(rest) =~= pct_decode(rest));
    } else {
        let x = b[0];
        let tl = b.drop_first();
        assert(b =~= seq![x] + tl);
        lemma_pct_bytes_append(seq![x], tl);
        assert(seq![x].drop_last() =~= Seq::<u8>::empty());
        let hi = hex_digit((x / 16) as nat);
        let lo = hex_digit((x % 16) as nat);
        assert(pct_bytes(seq![x]) == pct_bytes(seq![x].drop_last()) + seq![
            '%',
            hex_digit((seq![x][0] / 16) as nat),
            hex_digit((seq![x][0] % 16) as nat),
        ]);
        assert(pct_bytes(Seq::<u8>::empty()) == Seq::<char>::empty());
        assert(pct_bytes(seq![x]) =~= seq!['%', hi, lo]);
        assert(hex_value(hi) == (x / 16) as int);
        assert(hex_value(lo) == (x % 16) as int);
        assert(x == (x / 16) * 16 + x % 16);
        lemma_pct_bytes_decode(tl, rest);
        let t = pct_bytes(b) + rest;
        assert(t =~= seq!['%', hi, lo] + (pct_bytes(tl) + rest));
        assert(t.subrange(3, t.len() as int) =~= pct_bytes(tl) + rest);
        assert(pct_decode(t) =~= b + pct_decode(rest));
        assert forall|i: int| 0 <= i < pct_bytes(b).len() implies #[trigger] pct_bytes(b)[i] == '%'
            || is_ascii_alnum(pct_bytes(b)[i]) by {
            if i >= 3 {
                assert(pct_bytes(b)[i] == pct_bytes(tl)[i - 3]);
            }
        }
    }
}

proof fn lemma_pct_encode_append(a: Seq<char>, b: Seq<char>)
    ensures
        spec_pct_encode(a + b) == spec_pct_encode(a) + spec_pct_encode(b),
    decreases b.len(),
{
    if b.len() == 0 {
        assert(a + b =~= a);
        assert(spec_pct_encode(a) + spec_pct_encode(b) =~= spec_pct_encode(a));
    } else {
        lemma_pct_encode_append(a, b.drop_last());
        assert((a + b).drop_last() =~= a + b.drop_last());
        assert(spec_pct_encode(a + b) =~= spec_pct_encode(a) + spec_pct_encode(b));
    }
}

/// Percent-encoding writes only URL-safe characters and `%`, and decoding what it writes
/// gives back the UTF-8 bytes of the path.
pub proof fn law_pct_encode_decodes(path: Seq<char>)
    ensures
        forall|i: int| 0 <= i < spec_pct_encode(path).len() ==> url_safe(#[trigger] spec_pct_encode(path)[i])
            || spec_pct_encode(path)[i] == '%',
        pct_decode(spec_pct_encode(path)) == encode_utf8(path),
    decreases path.len(),
{
    if path.len() > 0 {
        let c = path[0];
        let tl = path.drop_first();
        assert(path =~= seq![c] + tl);
        lemma_pct_encode_append(seq![c], tl);
        assert(seq![c].drop_last() =~= Seq::<char>::empty());
        assert(spec_pct_encode(seq![c]) == spec_pct_encode(seq![c].drop_last()) + pct_char(seq![c][0]));
        assert(spec_pct_encode(Seq::<char>::empty()) == Seq::<char>::empty());
        assert(spec_pct_encode(seq![c]) =~= pct_char(c));
        law_pct_encode_decodes(tl);
        let r = spec_pct_encode(path);
        if url_safe(c) {
            let v = c as u32;
            assert(v <= 0x7F);
            assert((v & 0x7F) as u8 == v as u8 && v as u8 == v) by (bit_vector)
                requires
                    v <= 0x7F;
            assert(c as u8 == v as u8);
            assert(encode_scalar(c as u32) =~= seq![c as u8]);
            assert(r =~= seq![c] + spec_pct_encode(tl));
            assert(r.subrange(1, r.len() as int) =~= spec_pct_encode(tl));
            assert(pct_decode(r) =~= encode_utf8(path));
            assert forall|i: int| 0 <= i < r.len() implies url_safe(#[trigger] r[i]) || r[i] == '%' by {
                if i >= 1 {
                    assert(r[i] == spec_pct_encode(tl)[i - 1]);
                }
            }
        } else {
            lemma_pct_bytes_decode(encode_scalar(c as u32), spec_pct_encode(tl));
            let pb = pct_bytes(encode_scalar(c as u32));
            assert(r =~= pb + spec_pct_encode(tl));
            assert(pct_decode(r) =~= encode_utf8(path));
            assert forall|i: int| 0 <= i < r.len() implies url_safe(#[trigger] r[i]) || r[i] == '%' by {
                if i >= pb.len() {
                    assert(r[i] == spec_pct_encode(tl)[i - pb.len()]);
                } else {
                    assert(r[i] == pb[i]);
                }
            }
        }
    }
}

fn hex_char(n: u8) -> (c: char)
    requires
        n < 16,
    ensures
        c == hex_digit(n as nat),
{
    if n < 10 {
        char_from_ascii(48 + n as u32)
    } else {
        char_from_ascii(55 + n as u32)
    }
}

/// The UTF-8 bytes of `c`.
pub fn utf8_bytes(c: char) -> (r: Vec<u8>)
    ensures
        r@ == encode_scalar(c as u32),
{
    let v = c as u32;
    let mut r: Vec<u8> = Vec::new();
    if v <= 0x7f {
        r.push((v & 0x7f) as u8);
    } else if v <= 0x7ff {
        r.push(0xC0 | ((v >> 6) & 0x1F) as u8);
        r.push(0x80 | (v & 0x3F) as u8);
    } else if v <= 0xffff {
        r.push(0xE0 | ((v >> 12) & 0x0F) as u8);
        r.push(0x80 | ((v >> 6) & 0x3F) as u8);
        r.push(0x80 | (v & 0x3F) as u8);
    } else {
        r.push(0xF0 | ((v >> 18) & 0x7) as u8);
        r.push(0x80 | ((v >> 12) & 0x3F) as u8);
        r.push(0x80 | ((v >> 6) & 0x3F) as u8);
        r.push(0x80 | (v & 0x3F) as u8);
    }
    assert(r@ =~= encode_scalar(v));
    r
}

/// Percent-encodes every character of `path` except ASCII letters and digits and `-_./+`.
pub fn pct_encode(path: &str) -> (r: String)
    ensures
        r@ == spec_pct_encode(path@),
{
    from_chars(&pct_encode_chars(&to_chars(path)))
}

pub fn pct_encode_chars(s: &[char]) -> (r: Vec<char>)
    ensures
        r@ == spec_pct_encode(s@),
{
    let mut out: Vec<char> = Vec::new();
    let mut i: usize = 0;
    while i < s.len()
        invariant
            i <= s@.len(),
            out@ == spec_pct_encode(s@.take(i as int)),
        decreases s.len() - i,
    {
        assert(s@.take(i + 1).drop_last() =~= s@.take(i as int));
        let c = s[i];
        if ('a' <= c && c <= 'z') || ('A' <= c && c <= 'Z') || ('0' <= c && c <= '9') || c == '-'
            || c == '_' || c == '.' || c == '/' || c == '+' {
            out.push(c);
        } else {
            let bytes = utf8_bytes(c);
            let ghost start = out@;
            let mut j: usize = 0;
            while j < bytes.len()
                invariant
                    j <= bytes@.len(),
                    out@ == start + pct_bytes(bytes@.take(j as int)),
                decreases bytes.len() - j,
            {
                assert(bytes@.take(j + 1).drop_last() =~= bytes@.take(j as int));
                let b = bytes[j];
                out.push('%');
                out.push(hex_char(b / 16));
                out.push(hex_char(b % 16));
                j += 1;
            }
            assert(bytes@.take(bytes.len() as int) =~= bytes@);
        }
        i += 1;
    }
    assert(s@.take(s.len() as int) =~= s@);
    out
}

/// What `escape_url_parens` makes of one character.
pub open spec fn url_paren_char(c: char) -> Seq<char> {
    if c == '(' || c == ')' || c == '&' {
        seq!['\\', c]
    } else {
        seq![c]
    }
}

/// `url` with a backslash before each `(`, `)` and `&`.
pub open spec fn spec_escape_url_parens(s: Seq<char>) -> Seq<char>
    decreases s.len(),
{
    if s.len() == 0 {
        Seq::empty()
    } else {
        spec_escape_url_parens(s.drop_last()) + url_paren_char(s[s.len() - 1])
    }
}

/// Escapes `(`, `)` and `&` with a backslash.
pub fn escape_url_parens(url: &str) -> (r: String)
    ensures
        r@ == spec_escape_url_parens(url@),
{
    from_chars(&escape_url_parens_chars(&to_chars(url)))
}

pub fn escape_url_parens_chars(s: &[char]) -> (r: Vec<char>)
    ensures
        r@ == spec_escape_url_parens(s@),
{
    let mut out: Vec<char> = Vec::new();
    let mut i: usize = 0;
    while i < s.len()
        invariant
            i <= s@.len(),
            out@ == spec_escape_url_parens(s@.take(i as int)),
        decreases s.len() - i,
    {
        assert(s@.take(i + 1).drop_last() =~= s@.take(i as int));
        let c = s[i];
        if c == '(' || c == ')' || c == '&' {
            out.push('\\');
        }
        out.push(c);
        i += 1;
    }
    assert(s@.take(s.len() as int) =~= s@);
    out
}

/// What the quoted form of `yaml_str` makes of one character.
pub open spec fn yaml_escape_char(c: char) -> Seq<char> {
    if c == '\\' || c == '"' {
        seq!['\\', c]
    } else {
        seq![c]
    }
}

pub open spec fn yaml_escape(s: Seq<char>) -> Seq<char>
    decreases s.len(),
{
    if s.len() == 0 {
        Seq::empty()
    } else {
        yaml_escape(s.drop_last()) + yaml_escape_char(s[s.len() - 1])
    }
}

/// `s` contains the character `c`.
pub open spec fn has_char(s: Seq<char>, c: char) -> bool {
    exists|i: int| 0 <= i < s.len() && s[i] == c
}

/// A YAML scalar needs quotes when it holds `"` or `:`, or starts with `'`, `{` or `[`.
pub open spec fn yaml_needs_quote(s: Seq<char>) -> bool {
    has_char(s, '"') || has_char(s, ':') || (s.len() > 0 && (s[0] == '\'' || s[0] == '{' || s[0]
        == '['))
}

/// `s` as a YAML scalar: as it is, or double-quoted with `\` and `"` escaped.
pub open spec fn spec_yaml_str(s: Seq<char>) -> Seq<char> {
    if yaml_needs_quote(s) {
        seq!['"'] + yaml_escape(s) + seq!['"']
    } else {
        s
    }
}

/// Reading a double-quoted YAML scalar's inside: `\` followed by a character stands for
/// that character.
pub open spec fn yaml_unescape(s: Seq<char>) -> Seq<char>
    decreases s.len(),
{
    if s.len() == 0 {
        Seq::empty()
    } else if s[0] == '\\' && s.len() >= 2 {
        seq![s[1]] + yaml_unescape(s.subrange(2, s.len() as int))
    } else {
        seq![s[0]] + yaml_unescape(s.subrange(1, s.len() as int))
    }
}

proof fn lemma_yaml_escape_append(a: Seq<char>, b: Seq<char>)
    ensures
        yaml_escape(a + b) == yaml_escape(a) + yaml_escape(b),
    decreases b.len(),
{
    if b.len() == 0 {
        assert(a + b =~= a);
        assert(yaml_escape(a) + yaml_escape(b) =~= yaml_escape(a));
    } else {
        lemma_yaml_escape_append(a, b.drop_last());
        assert((a + b).drop_last() =~= a + b.drop_last());
        assert((a + b)[(a + b).len() - 1] == b[b.len() - 1]);
        assert(yaml_escape(a + b) =~= yaml_escape(a) + yaml_escape(b));
    }
}

proof fn lemma_yaml_unescape_escape(s: Seq<char>)
    ensures
        yaml_unescape(yaml_escape(s)) == s,
    decreases s.len(),
{
    if s.len() > 0 {
        let c = s[0];
        let rest = s.subrange(1, s.len() as int);
        assert(s =~= seq![c] + rest);
        lemma_yaml_escape_append(seq![c], rest);
        assert(seq![c].drop_last() =~= Seq::<char>::empty());
        assert(yaml_escape(Seq::<char>::empty()) == Seq::<char>::empty());
        assert(yaml_escape(seq![c]) == yaml_escape(seq![c].drop_last()) + yaml_escape_char(seq![c][0]));
        assert(yaml_escape(seq![c]) =~= yaml_escape_char(c));
        lemma_yaml_unescape_escape(rest);
        let e = yaml_escape(s);
        if c == '\\' || c == '"' {
            assert(e =~= seq!['\\', c] + yaml_escape(rest));
            assert(e.subrange(2, e.len() as int) =~= yaml_escape(rest));
        } else {
            assert(e =~= seq![c] + yaml_escape(rest));
            assert(e.subrange(1, e.len() as int) =~= yaml_escape(rest));
        }
        assert(yaml_unescape(e) =~= s);
    }
}

/// A YAML scalar reads back as the text it was made from: text that needs no quotes is
/// written as it is, and other text is written in double quotes whose inside, with each
/// escaped `\` and `"` read back, is the text.
pub proof fn law_yaml_str_quoting(s: Seq<char>)
    ensures
        !yaml_needs_quote(s) ==> spec_yaml_str(s) == s,
        yaml_needs_quote(s) ==> ({
            let q = spec_yaml_str(s);
            &&& q.len() >= 2
            &&& q[0] == '"'
            &&& q[q.len() - 1] == '"'
            &&& yaml_unescape(q.subrange(1, q.len() - 1)) == s
        }),
{
    if yaml_needs_quote(s) {
        let q = spec_yaml_str(s);
        assert(q.subrange(1, q.len() - 1) =~= yaml_escape(s));
        lemma_yaml_unescape_escape(s);
    }
}

pub fn contains_char(s: &[char], c: char) -> (r: bool)
    ensures
        r == has_char(s@, c),
{
    match find_char_at(s, c, 0) {
        Some(_) => true,
        None => {
            proof {
                crate::text::lemma_find_char_from(s@, c, 0);
            }
            false
        },
    }
}

/// Quotes a YAML scalar when it needs it.
pub fn yaml_str(s: &str) -> (r: String)
    ensures
        r@ == spec_yaml_str(s@),
{
    from_chars(&yaml_str_chars(&to_chars(s)))
}

pub fn yaml_str_chars(s: &[char]) -> (r: Vec<char>)
    ensures
        r@ == spec_yaml_str(s@),
{
    let needs = contains_char(s, '"') || contains_char(s, ':') || (s.len() > 0 && (s[0] == '\''
        || s[0] == '{' || s[0] == '['));
    if !needs {
        return slice(s, 0, s.len());
    }
    let mut out: Vec<char> = Vec::new();
    out.push('"');
    let ghost start = out@;
    let mut i: usize = 0;
    while i < s.len()
        invariant
            i <= s@.len(),
            start == seq!['"'],
            out@ == start + yaml_escape(s@.take(i as int)),
        decreases s.len() - i,
    {
        assert(s@.take(i + 1).drop_last() =~= s@.take(i as int));
        let c = s[i];
        if c == '\\' || c == '"' {
            out.push('\\');
        }
        out.push(c);
        i += 1;
    }
    assert(s@.take(s.len() as int) =~= s@);
    out.push('"');
    out
}

// ------------------------------------------------------------------
// Dates
// ------------------------------------------------------------------

/// The number of days of month `m` in year `y`; 30 for a month number out of range.
pub open spec fn spec_days_in_month(y: i32, m: u32) -> u32 {
    if m == 1 || m == 3 || m == 5 || m == 7 || m == 8 || m == 10 || m == 12 {
        31
    } else if m == 4 || m == 6 || m == 9 || m == 11 {
        30
    } else if m == 2 {
        if y % 4 == 0 && (y % 100 != 0 || y % 400 == 0) {
            29
        } else {
            28
        }
    } else {
        30
    }
}

pub fn days_in_month(y: i32, m: u32) -> (r: u32)
    ensures
        r == spec_days_in_month(y, m),
{
    match m {
        1 | 3 | 5 | 7 | 8 | 10 | 12 => 31,
        4 | 6 | 9 | 11 => 30,
        2 => {
            if y % 4 == 0 && (y % 100 != 0 || y % 400 == 0) {
                29
            } else {
                28
            }
        },
        _ => 30,
    }
}

/// `s` without all leading `c`.
pub open spec fn strip_leading(s: Seq<char>, c: char) -> Seq<char>
    decreases s.len(),
{
    if s.len() > 0 && s[0] == c {
        strip_leading(s.drop_first(), c)
    } else {
        s
    }
}

/// `s` without all trailing `c`.
pub open spec fn strip_trailing(s: Seq<char>, c: char) -> Seq<char>
    decreases s.len(),
{
    if s.len() > 0 && s[s.len() - 1] == c {
        strip_trailing(s.drop_last(), c)
    } else {
        s
    }
}

/// What `strip_trailing` leaves does not end with `c`.
pub proof fn lemma_strip_trailing_end(s: Seq<char>, c: char)
    ensures
        strip_trailing(s, c).len() == 0 || strip_trailing(s, c).last() != c,
    decreases s.len(),
{
    if s.len() > 0 && s[s.len() - 1] == c {
        lemma_strip_trailing_end(s.drop_last(), c);
    }
}

pub fn strip_leading_chars(s: &[char], c: char) -> (r: Vec<char>)
    ensures
        r@ == strip_leading(s@, c),
{
    let mut i: usize = 0;
    assert(s@.subrange(0, s@.len() as int) =~= s@);
    while i < s.len() && s[i] == c
        invariant
            i <= s@.len(),
            strip_leading(s@, c) == strip_leading(s@.subrange(i as int, s@.len() as int), c),
        decreases s.len() - i,
    {
        assert(s@.subrange(i as int, s@.len() as int).drop_first() =~= s@.subrange(
            i + 1,
            s@.len() as int,
        ));
        i += 1;
    }
    slice(s, i, s.len())
}

pub fn strip_trailing_chars(s: &[char], c: char) -> (r: Vec<char>)
    ensures
        r@ == strip_trailing(s@, c),
{
    let mut j: usize = s.len();
    assert(s@.subrange(0, s@.len() as int) =~= s@);
    while j > 0 && s[j - 1] == c
        invariant
            j <= s@.len(),
            strip_trailing(s@, c) == strip_trailing(s@.subrange(0, j as int), c),
        decreases j,
    {
        assert(s@.subrange(0, j as int).drop_last() =~= s@.subrange(0, j - 1));
        j -= 1;
    }
    slice(s, 0, j)
}

/// The first word holding a `:`.
pub open spec fn first_with_colon(ws: Seq<Seq<char>>, i: int) -> Option<Seq<char>>
    decreases ws.len() - i,
{
    if i < 0 || i >= ws.len() {
        None
    } else if has_char(ws[i], ':') {
        Some(ws[i])
    } else {
        first_with_colon(ws, i + 1)
    }
}

/// `s` parsed with `str::parse::<i32>`, or 0.
pub open spec fn i32_or_zero(s: Seq<char>) -> i32 {
    match parse_i32_spec(s) {
        Some(v) => v as i32,
        None => 0,
    }
}

/// `s` parsed with `str::parse::<u32>`.
pub open spec fn spec_parse_u32(s: Seq<char>) -> Option<u32> {
    match parse_unsigned(s, u32::MAX as nat) {
        Some(v) => Some(v as u32),
        None => None,
    }
}

/// `s` parsed with `str::parse::<i32>`.
pub open spec fn spec_parse_i32(s: Seq<char>) -> Option<i32> {
    match parse_i32_spec(s) {
        Some(v) => Some(v as i32),
        None => None,
    }
}

/// Year, month, day and hour moved from UTC+8 to UTC (release-build integer arithmetic).
pub open spec fn utc_shift(y: i32, mo: u32, d: u32, h: i32) -> (i32, u32, i32, i32) {
    let uh = h.wrapping_sub(8);
    if uh < 0 {
        let uh2 = (uh + 24) as i32;
        let ud = (d as i32).wrapping_sub(1);
        if ud < 1 {
            let ny = if mo == 1 {
                y.wrapping_sub(1)
            } else {
                y
            };
            let nmo = if mo == 1 {
                12u32
            } else {
                mo.wrapping_sub(1)
            };
            (ny, nmo, spec_days_in_month(ny, nmo) as i32, uh2)
        } else {
            (y, mo, ud, uh2)
        }
    } else {
        (y, mo, d as i32, uh)
    }
}

/// `YYYY-MM-DDTHH:MM:00.000Z`.
pub open spec fn iso_text(y: i32, mo: u32, d: i32, h: i32, m: i32) -> Seq<char> {
    fmt_int(y as int, 4) + "-"@ + fmt_int(mo as int, 2) + "-"@ + fmt_int(d as int, 2) + "T"@
        + fmt_int(h as int, 2) + ":"@ + fmt_int(m as int, 2) + ":00.000Z"@
}

/// What `org_date_to_iso` returns: an Org timestamp `<YYYY-MM-DD Day HH:MM>` in UTC+8,
/// as an ISO UTC instant.
pub open spec fn spec_org_date_to_iso(s: Seq<char>) -> Option<Seq<char>> {
    let s1 = strip_trailing(strip_leading(trim(s), '<'), '>');
    let parts = words(s1);
    if parts.len() == 0 {
        None
    } else {
        let time_str = match first_with_colon(parts, 0) {
            Some(p) => p,
            None => "00:00"@,
        };
        let dp = split(parts[0], '-');
        if dp.len() != 3 {
            None
        } else {
            match (spec_parse_i32(dp[0]), spec_parse_u32(dp[1]), spec_parse_u32(dp[2])) {
                (Some(y), Some(mo), Some(d)) => {
                    let tp = split(time_str, ':');
                    let h = i32_or_zero(tp[0]);
                    let m = if tp.len() > 1 {
                        i32_or_zero(tp[1])
                    } else {
                        0
                    };
                    let (uy, umo, ud, uh) = utc_shift(y, mo, d, h);
                    Some(iso_text(uy, umo, ud, uh, m))
                },
                _ => None,
            }
        }
    }
}

fn first_colon_word(parts: &Vec<Vec<char>>) -> (r: Option<usize>)
    ensures
        r matches Some(i) ==> i < parts@.len() && first_with_colon(views(parts@), 0) == Some(parts@[i as int]@),
        r is None ==> first_with_colon(views(parts@), 0) is None,
{
    let ghost pv = views(parts@);
    let mut i: usize = 0;
    while i < parts.len()
        invariant
            i <= parts@.len(),
            pv == views(parts@),
            first_with_colon(pv, 0) == first_with_colon(pv, i as int),
        decreases parts.len() - i,
    {
        if contains_char(&parts[i], ':') {
            return Some(i);
        }
        i += 1;
    }
    None
}

fn i32_or_zero_of(s: &[char]) -> (r: i32)
    ensures
        r == i32_or_zero(s@),
{
    match parse_i32(s) {
        Some(v) => v,
        None => 0,
    }
}

/// Converts an Org timestamp in UTC+8 to an ISO-8601 UTC instant.
pub fn org_date_to_iso(s: &str) -> (r: Option<String>)
    ensures
        r matches Some(v) ==> spec_org_date_to_iso(s@) == Some(v@),
        r is None ==> spec_org_date_to_iso(s@) is None,
{
    match org_date_to_iso_chars(&to_chars(s)) {
        Some(v) => Some(from_chars(&v)),
        None => None,
    }
}

pub fn org_date_to_iso_chars(s: &[char]) -> (r: Option<Vec<char>>)
    ensures
        r matches Some(v) ==> spec_org_date_to_iso(s@) == Some(v@),
        r is None ==> spec_org_date_to_iso(s@) is None,
{
    let s0 = trim_chars(s);
    let s1 = strip_trailing_chars(&strip_leading_chars(&s0, '<'), '>');
    let parts = split_whitespace(&s1);
    let ghost pv = views(parts@);
    if parts.len() == 0 {
        return None;
    }
    let time_str = match first_colon_word(&parts) {
        Some(i) => slice(&parts[i], 0, parts[i].len()),
        None => to_chars("00:00"),
    };
    assert(time_str@ == match first_with_colon(pv, 0) {
        Some(p) => p,
        None => "00:00"@,
    });
    let dp = split_chars(&parts[0], '-');
    if dp.len() != 3 {
        return None;
    }
    let y = match parse_i32(&dp[0]) {
        Some(v) => v,
        None => return None,
    };
    let mo = match parse_u32(&dp[1]) {
        Some(v) => v,
        None => return None,
    };
    let d = match parse_u32(&dp[2]) {
        Some(v) => v,
        None => return None,
    };
    let tp = split_chars(&time_str, ':');
    let h = i32_or_zero_of(&tp[0]);
    let m = if tp.len() > 1 {
        i32_or_zero_of(&tp[1])
    } else {
        0
    };
    let mut utc_h = h.wrapping_sub(8);
    let mut utc_d = d as i32;
    let mut utc_mo = mo;
    let mut utc_y = y;
    if utc_h < 0 {
        utc_h += 24;
        utc_d = utc_d.wrapping_sub(1);
        if utc_d < 1 {
            if utc_mo == 1 {
                utc_mo = 12;
                utc_y = utc_y.wrapping_sub(1);
            } else {
                utc_mo = utc_mo.wrapping_sub(1);
            }
            utc_d = days_in_month(utc_y, utc_mo) as i32;
        }
    }
    assert((utc_y, utc_mo, utc_d, utc_h) == utc_shift(y, mo, d, h));
    let mut out = fmt_int_chars(utc_y as i64, 4);
    push_str(&mut out, "-");
    push_all(&mut out, &fmt_int_chars(utc_mo as i64, 2));
    push_str(&mut out, "-");
    push_all(&mut out, &fmt_int_chars(utc_d as i64, 2));
    push_str(&mut out, "T");
    push_all(&mut out, &fmt_int_chars(utc_h as i64, 2));
    push_str(&mut out, ":");
    push_all(&mut out, &fmt_int_chars(m as i64, 2));
    push_str(&mut out, ":00.000Z");
    Some(out)
}

/// Day of the week (0 for Sunday) by Sakamoto's method, in release-build `i32` arithmetic;
/// `mo` is between 1 and 12.
pub open spec fn weekday_num(y: i32, mo: u32, d: i32) -> i32
    recommends
        1 <= mo <= 12,
{
    let t: Seq<i32> = seq![0, 3, 2, 5, 0, 3, 5, 1, 4, 6, 2, 4];
    let y_adj: i32 = if mo < 3 {
        y.wrapping_sub(1)
    } else {
        y
    };
    let q4: i32 = (if y_adj >= 0 { y_adj / 4 } else { -((-(y_adj as int)) / 4) }) as i32;
    let q100: i32 = (if y_adj >= 0 { y_adj / 100 } else { -((-(y_adj as int)) / 100) }) as i32;
    let q400: i32 = (if y_adj >= 0 { y_adj / 400 } else { -((-(y_adj as int)) / 400) }) as i32;
    let sum = y_adj.wrapping_add(q4).wrapping_sub(q100).wrapping_add(q400).wrapping_add(
        t[mo - 1],
    ).wrapping_add(d);
    (sum - 7 * (if sum >= 0 { sum / 7 } else { -((-(sum as int)) / 7) })) as i32
}

/// The three-letter name of weekday `n`; remainders out of 0..=5 name Saturday.
pub open spec fn weekday_name(n: i32) -> Seq<char> {
    if n == 0 {
        "Sun"@
    } else if n == 1 {
        "Mon"@
    } else if n == 2 {
        "Tue"@
    } else if n == 3 {
        "Wed"@
    } else if n == 4 {
        "Thu"@
    } else if n == 5 {
        "Fri"@
    } else {
        "Sat"@
    }
}

/// Year, month, day and hour moved from UTC to UTC+8 (release-build integer arithmetic).
pub open spec fn local_shift(y: i32, mo: u32, d: u32, h: i32) -> (i32, u32, i32, i32) {
    let lh = h.wrapping_add(8);
    if lh >= 24 {
        let lh2 = (lh - 24) as i32;
        let ld = (d as i32).wrapping_add(1);
        if ld > spec_days_in_month(y, mo) as i32 {
            if mo == 12 {
                (y.wrapping_add(1), 1u32, 1i32, lh2)
            } else {
                (y, mo.wrapping_add(1), 1i32, lh2)
            }
        } else {
            (y, mo, ld, lh2)
        }
    } else {
        (y, mo, d as i32, lh)
    }
}

/// Moving a valid UTC+8 time to UTC and back gives the time that was moved, and
/// moving a valid UTC time to UTC+8 and back gives it too.
pub proof fn law_time_shift_round_trip(y: i32, mo: u32, d: u32, h: i32)
    requires
        i32::MIN < y < i32::MAX,
        1 <= mo <= 12,
        1 <= d <= spec_days_in_month(y, mo),
        0 <= h <= 23,
    ensures
        ({
            let (uy, umo, ud, uh) = utc_shift(y, mo, d, h);
            &&& 1 <= ud
            &&& local_shift(uy, umo, ud as u32, uh) == (y, mo, d as i32, h)
        }),
        ({
            let (ly, lmo, ld, lh) = local_shift(y, mo, d, h);
            &&& 1 <= ld
            &&& utc_shift(ly, lmo, ld as u32, lh) == (y, mo, d as i32, h)
        }),
{
}

/// The parsed pieces of an ISO instant: year, month, day, hour and minute.
pub open spec fn iso_fields(s: Seq<char>) -> Option<(i32, u32, u32, i32, i32)> {
    let t = trim(s);
    match crate::text::find_char(t, 'T') {
        None => None,
        Some(idx) => {
            let date_part = t.subrange(0, idx);
            let time_part = t.subrange(idx + 1, t.len() as int);
            let dp = split(date_part, '-');
            if dp.len() != 3 {
                None
            } else {
                match (spec_parse_i32(dp[0]), spec_parse_u32(dp[1]), spec_parse_u32(dp[2])) {
                    (Some(y), Some(mo), Some(d)) => {
                        let tp = split(time_part, ':');
                        let h = i32_or_zero(tp[0]);
                        let m = if tp.len() > 1 {
                            i32_or_zero(tp[1])
                        } else {
                            0
                        };
                        Some((y, mo, d, h, m))
                    },
                    _ => None,
                }
            }
        },
    }
}

/// `iso_to_org_date` names the local month from a table, so it takes only instants whose
/// local month lies between 1 and 12.
pub open spec fn iso_month_ok(s: Seq<char>) -> bool {
    match iso_fields(s) {
        Some((y, mo, d, h, m)) => {
            let (ly, lmo, ld, lh) = local_shift(y, mo, d, h);
            1 <= lmo <= 12
        },
        None => true,
    }
}

/// What `iso_to_org_date` returns: an ISO UTC instant as an Org timestamp in UTC+8.
pub open spec fn spec_iso_to_org_date(s: Seq<char>) -> Option<Seq<char>> {
    match iso_fields(s) {
        None => None,
        Some((y, mo, d, h, m)) => {
            let (ly, lmo, ld, lh) = local_shift(y, mo, d, h);
            Some(
                "<"@ + fmt_int(ly as int, 4) + "-"@ + fmt_int(lmo as int, 2) + "-"@ + fmt_int(
                    ld as int,
                    2,
                ) + " "@ + weekday_name(weekday_num(ly, lmo, ld)) + " "@ + fmt_int(lh as int, 2)
                    + ":"@ + fmt_int(m as int, 2) + ">"@,
            )
        },
    }
}

fn weekday_of(y: i32, mo: u32, d: i32) -> (r: i32)
    requires
        1 <= mo <= 12,
    ensures
        r == weekday_num(y, mo, d),
{
    let t: [i32; 12] = [0, 3, 2, 5, 0, 3, 5, 1, 4, 6, 2, 4];
    let y_adj = if mo < 3 {
        y.wrapping_sub(1)
    } else {
        y
    };
    let idx = (mo - 1) as usize;
    let tv = t[idx];
    assert(tv == seq![0i32, 3, 2, 5, 0, 3, 5, 1, 4, 6, 2, 4][mo - 1]);
    let sum = y_adj.wrapping_add(y_adj / 4).wrapping_sub(y_adj / 100).wrapping_add(
        y_adj / 400,
    ).wrapping_add(tv).wrapping_add(d);
    sum % 7
}

fn weekday_str(n: i32) -> (r: Vec<char>)
    ensures
        r@ == weekday_name(n),
{
    match n {
        0 => to_chars("Sun"),
        1 => to_chars("Mon"),
        2 => to_chars("Tue"),
        3 => to_chars("Wed"),
        4 => to_chars("Thu"),
        5 => to_chars("Fri"),
        _ => to_chars("Sat"),
    }
}

/// Whether `iso_to_org_date` takes `s`.
pub fn iso_date_month_ok(s: &str) -> (r: bool)
    ensures
        r == iso_month_ok(s@),
{
    match iso_fields_of(&to_chars(s)) {
        None => true,
        Some((y, mo, d, h, _m)) => {
            let (_ly, lmo, _ld, _lh) = local_shift_of(y, mo, d, h);
            1 <= lmo && lmo <= 12
        },
    }
}

fn iso_fields_of(s: &[char]) -> (r: Option<(i32, u32, u32, i32, i32)>)
    ensures
        r == iso_fields(s@),
{
    let t = trim_chars(s);
    let idx = match find_char_at(&t, 'T', 0) {
        Some(i) => i,
        None => return None,
    };
    assert(idx < t.len());
    let date_part = slice(&t, 0, idx);
    let time_part = slice(&t, idx + 1, t.len());
    let dp = split_chars(&date_part, '-');
    if dp.len() != 3 {
        return None;
    }
    let y = match parse_i32(&dp[0]) {
        Some(v) => v,
        None => return None,
    };
    let mo = match parse_u32(&dp[1]) {
        Some(v) => v,
        None => return None,
    };
    let d = match parse_u32(&dp[2]) {
        Some(v) => v,
        None => return None,
    };
    let tp = split_chars(&time_part, ':');
    let h = i32_or_zero_of(&tp[0]);
    let m = if tp.len() > 1 {
        i32_or_zero_of(&tp[1])
    } else {
        0
    };
    Some((y, mo, d, h, m))
}

fn local_shift_of(y: i32, mo: u32, d: u32, h: i32) -> (r: (i32, u32, i32, i32))
    ensures
        r == local_shift(y, mo, d, h),
{
    let mut local_h = h.wrapping_add(8);
    let mut local_d = d as i32;
    let mut local_mo = mo;
    let mut local_y = y;
    if local_h >= 24 {
        local_h -= 24;
        local_d = local_d.wrapping_add(1);
        if local_d > days_in_month(local_y, local_mo) as i32 {
            local_d = 1;
            if local_mo == 12 {
                local_mo = 1;
                local_y = local_y.wrapping_add(1);
            } else {
                local_mo = local_mo.wrapping_add(1);
            }
        }
    }
    (local_y, local_mo, local_d, local_h)
}

/// Converts an ISO-8601 UTC instant to an Org timestamp in UTC+8 with its weekday.
pub fn iso_to_org_date(s: &str) -> (r: Option<String>)
    requires
        iso_month_ok(s@),
    ensures
        r matches Some(v) ==> spec_iso_to_org_date(s@) == Some(v@),
        r is None ==> spec_iso_to_org_date(s@) is None,
{
    let (y, mo, d, h, m) = match iso_fields_of(&to_chars(s)) {
        Some(f) => f,
        None => return None,
    };
    let (ly, lmo, ld, lh) = local_shift_of(y, mo, d, h);
    let wd = weekday_str(weekday_of(ly, lmo, ld));
    let mut out = to_chars("<");
    push_all(&mut out, &fmt_int_chars(ly as i64, 4));
    push_str(&mut out, "-");
    push_all(&mut out, &fmt_int_chars(lmo as i64, 2));
    push_str(&mut out, "-");
    push_all(&mut out, &fmt_int_chars(ld as i64, 2));
    push_str(&mut out, " ");
    push_all(&mut out, &wd);
    push_str(&mut out, " ");
    push_all(&mut out, &fmt_int_chars(lh as i64, 2));
    push_str(&mut out, ":");
    push_all(&mut out, &fmt_int_chars(m as i64, 2));
    push_str(&mut out, ">");
    Some(from_chars(&out))
}

} // verus!
