//! List item lines as the Markdown writer reads them: only leading whitespace is
//! ignored, a bullet needs content after it, and a number needs at least one digit.
use vstd::prelude::*;
use crate::parser::org::list::{digit_run, unordered_content_chars};
use crate::text::{find, find_str, from_chars, has_prefix, slice, starts_with_str, to_chars, trim_start, trim_start_chars};
use crate::util::char_index_at_byte;

verus! {

/// Without its leading whitespace, the line starts with `- ` or `+ ` and goes on after it.
pub open spec fn spec_is_unordered_item(line: Seq<char>) -> bool {
    let t = trim_start(line);
    (has_prefix(t, "- "@) || has_prefix(t, "+ "@)) && t.len() > 2
}

/// Without its leading whitespace, the line is one or more digits followed by `. `.
pub open spec fn spec_is_ordered_item(line: Seq<char>) -> bool {
    let t = trim_start(line);
    let n = digit_run(t, 0);
    n > 0 && n + 1 < t.len() && t[n] == '.' && t[n + 1] == ' '
}

/// The line without its leading whitespace, split at its first `. `: the number and the
/// content; without `. `, the number is `1` and the content is the whole line.
pub open spec fn spec_ordered_parts(line: Seq<char>) -> (Seq<char>, Seq<char>) {
    let t = trim_start(line);
    match find(t, ". "@) {
        Some(d) => (t.subrange(0, d), t.subrange(d + 2, t.len() as int)),
        None => ("1"@, t),
    }
}

pub fn is_unordered_item(line: &str) -> (r: bool)
    ensures
        r == spec_is_unordered_item(line@),
{
    let t = trim_start_chars(&to_chars(line));
    (starts_with_str(&t, "- ") || starts_with_str(&t, "+ ")) && t.len() > 2
}

/// The line without its leading whitespace and its first two bytes (the marker).
pub fn unordered_content(line: &str) -> (r: String)
    requires
        char_index_at_byte(trim_start(line@), 2) is Some,
    ensures
        r@ == trim_start(line@).subrange(
            char_index_at_byte(trim_start(line@), 2)->0,
            trim_start(line@).len() as int,
        ),
{
    let t = trim_start_chars(&to_chars(line));
    from_chars(&unordered_content_chars(&t))
}

pub fn is_ordered_item(line: &str) -> (r: bool)
    ensures
        r == spec_is_ordered_item(line@),
{
    let t = trim_start_chars(&to_chars(line));
    let mut i: usize = 0;
    while i < t.len() && '0' <= t[i] && t[i] <= '9'
        invariant
            i <= t@.len(),
            digit_run(t@, 0) == digit_run(t@, i as int),
        decreases t.len() - i,
    {
        i += 1;
    }
    i > 0 && i < t.len() && t[i] == '.' && i + 1 < t.len() && t[i + 1] == ' '
}

/// Splits an ordered item into its number and its content.
pub fn ordered_parts(line: &str) -> (r: (String, String))
    ensures
        (r.0@, r.1@) == spec_ordered_parts(line@),
{
    let t = trim_start_chars(&to_chars(line));
    proof {
        reveal_strlit(". ");
    }
    match find_str(&t, ". ") {
        Some(d) => {
            assert(d + 2 <= t.len());
            (from_chars(&slice(&t, 0, d)), from_chars(&slice(&t, d + 2, t.len())))
        },
        None => (from_chars(&to_chars("1")), from_chars(&t)),
    }
}

} // verus!
