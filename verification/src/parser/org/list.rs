//! Recognising Org list items.
use vstd::prelude::*;
use crate::text::{find, find_str, from_chars, has_prefix, is_digit, slice, starts_with_str, to_chars, trim, trim_chars};
use crate::util::char_index_at_byte;

verus! {

/// After trimming, the line starts with `- ` or `+ `.
pub open spec fn spec_is_unordered_item(line: Seq<char>) -> bool {
    has_prefix(trim(line), "- "@) || has_prefix(trim(line), "+ "@)
}

/// The end of the run of ASCII digits starting at `i`.
pub open spec fn digit_run(s: Seq<char>, i: int) -> int
    decreases s.len() - i,
{
    if 0 <= i < s.len() && is_digit(s[i]) {
        digit_run(s, i + 1)
    } else {
        i
    }
}

/// After trimming, the line is digits (possibly none) followed by `. `.
pub open spec fn spec_is_ordered_item(line: Seq<char>) -> bool {
    let t = trim(line);
    let n = digit_run(t, 0);
    n + 1 < t.len() && t[n] == '.' && t[n + 1] == ' '
}

/// The trimmed line split at its first `. `: the number and the content; without
/// `. `, the number is `1` and the content is the whole trimmed line.
pub open spec fn spec_ordered_parts(line: Seq<char>) -> (Seq<char>, Seq<char>) {
    let t = trim(line);
    match find(t, ". "@) {
        Some(d) => (t.subrange(0, d), t.subrange(d + 2, t.len() as int)),
        None => ("1"@, t),
    }
}

pub fn is_unordered_item(line: &str) -> (r: bool)
    ensures
        r == spec_is_unordered_item(line@),
{
    is_unordered_item_chars(&to_chars(line))
}

pub fn is_unordered_item_chars(line: &[char]) -> (r: bool)
    ensures
        r == spec_is_unordered_item(line@),
{
    let t = trim_chars(line);
    starts_with_str(&t, "- ") || starts_with_str(&t, "+ ")
}

/// The trimmed line without its first two bytes (the `- ` or `+ ` marker).
pub fn unordered_content(line: &str) -> (r: String)
    requires
        char_index_at_byte(trim(line@), 2) is Some,
    ensures
        r@ == trim(line@).subrange(char_index_at_byte(trim(line@), 2)->0, trim(line@).len() as int),
{
    let t = trim_chars(&to_chars(line));
    from_chars(&unordered_content_chars(&t))
}

/// `t` without its first two bytes.
pub fn unordered_content_chars(t: &[char]) -> (r: Vec<char>)
    requires
        char_index_at_byte(t@, 2) is Some,
    ensures
        char_index_at_byte(t@, 2)->0 <= t@.len(),
        r@ == t@.subrange(char_index_at_byte(t@, 2)->0, t@.len() as int),
{
    // A boundary at byte 2 falls after one two-byte character or after two one-byte characters.
    proof {
        reveal_with_fuel(char_index_at_byte, 3);
    }
    assert(t@.len() > 0);
    let w = crate::util::char_utf8_len(t[0]);
    let k: usize = if w == 2 {
        1
    } else {
        proof {
            let s1 = t@.drop_first();
            assert(w == 1);
            assert(s1.len() > 0);
            assert(char_index_at_byte(t@, 2) == match char_index_at_byte(s1, 1) {
                Some(j) => Some(j + 1),
                None => None,
            });
            let w1 = vstd::utf8::encode_scalar(s1[0] as u32).len() as int;
            assert(char_index_at_byte(s1, 1) == match char_index_at_byte(s1.drop_first(), 1 - w1) {
                Some(j) => Some(j + 1),
                None => None,
            });
            assert(w1 == 1);
            assert(char_index_at_byte(t@, 2) == Some(2int));
        }
        2
    };
    slice(t, k, t.len())
}

pub fn is_ordered_item(line: &str) -> (r: bool)
    ensures
        r == spec_is_ordered_item(line@),
{
    is_ordered_item_chars(&to_chars(line))
}

pub fn is_ordered_item_chars(line: &[char]) -> (r: bool)
    ensures
        r == spec_is_ordered_item(line@),
{
    let t = trim_chars(line);
    let mut i: usize = 0;
    while i < t.len() && '0' <= t[i] && t[i] <= '9'
        invariant
            i <= t@.len(),
            digit_run(t@, 0) == digit_run(t@, i as int),
        decreases t.len() - i,
    {
        i += 1;
    }
    i < t.len() && t[i] == '.' && i + 1 < t.len() && t[i + 1] == ' '
}

/// Splits an ordered item into its number and its content.
pub fn ordered_parts(line: &str) -> (r: (String, String))
    ensures
        (r.0@, r.1@) == spec_ordered_parts(line@),
{
    let (a, b) = ordered_parts_chars(&to_chars(line));
    (from_chars(&a), from_chars(&b))
}

pub fn ordered_parts_chars(line: &[char]) -> (r: (Vec<char>, Vec<char>))
    ensures
        (r.0@, r.1@) == spec_ordered_parts(line@),
{
    let t = trim_chars(line);
    proof {
        reveal_strlit(". ");
    }
    match find_str(&t, ". ") {
        Some(d) => {
            assert(d + 2 <= t.len());
            (slice(&t, 0, d), slice(&t, d + 2, t.len()))
        },
        None => (to_chars("1"), t),
    }
}

} // verus!
