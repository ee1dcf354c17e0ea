//! Appending blocks of Markdown to an output, with a chosen number of blank lines
//! between them.
use vstd::prelude::*;
use crate::text::{from_chars, push_all, repeat, to_chars};

verus! {

/// The number of newlines that end `s`.
pub open spec fn trailing_newlines(s: Seq<char>) -> nat
    decreases s.len(),
{
    if s.len() > 0 && s.last() == '\n' {
        1 + trailing_newlines(s.drop_last())
    } else {
        0
    }
}

proof fn lemma_trailing_newlines(s: Seq<char>)
    ensures
        trailing_newlines(s) <= s.len(),
        forall|k: int| s.len() - trailing_newlines(s) <= k < s.len() ==> s[k] == '\n',
        trailing_newlines(s) < s.len() ==> s[s.len() - trailing_newlines(s) - 1] != '\n',
    decreases s.len(),
{
    if s.len() > 0 && s.last() == '\n' {
        let d = s.drop_last();
        lemma_trailing_newlines(d);
        assert forall|k: int| s.len() - trailing_newlines(s) <= k < s.len() implies s[k] == '\n' by {
            if k < s.len() - 1 {
                assert(d[k] == s[k]);
            }
        }
        if trailing_newlines(s) < s.len() {
            assert(d[s.len() - trailing_newlines(s) - 1] == s[s.len() - trailing_newlines(s) - 1]);
        }
    }
}

/// `s` ending in a newline: unchanged if it does, with one added if it does not.
pub open spec fn end_line(s: Seq<char>) -> Seq<char> {
    if s.len() > 0 && s.last() == '\n' {
        s
    } else {
        s.push('\n')
    }
}

/// `content` appended after at least `min_blanks` blank lines (a single newline on an
/// empty output), and ended with a newline; nothing happens for empty content.
pub open spec fn spec_push_block_n(out: Seq<char>, content: Seq<char>, min_blanks: nat) -> Seq<char> {
    if content.len() == 0 {
        out
    } else {
        let needed = min_blanks + 1;
        let t = trailing_newlines(out);
        let base = if out.len() == 0 {
            seq!['\n']
        } else if t < needed {
            out + repeat('\n', (needed - t) as nat)
        } else {
            out
        };
        end_line(base + content)
    }
}

/// As `spec_push_block_n`, but with exactly `blanks` blank lines: extra newlines at the
/// end of the output are dropped.
pub open spec fn spec_push_block_exact(out: Seq<char>, content: Seq<char>, blanks: nat) -> Seq<char> {
    if content.len() == 0 {
        out
    } else {
        let needed = blanks + 1;
        let t = trailing_newlines(out);
        let base = if out.len() == 0 {
            seq!['\n']
        } else if t < needed {
            out + repeat('\n', (needed - t) as nat)
        } else if t > needed {
            out.subrange(0, out.len() - (t - needed))
        } else {
            out
        };
        end_line(base + content)
    }
}

/// The number of newlines that end `s`.
fn count_trailing_newlines(s: &[char]) -> (r: usize)
    ensures
        r == trailing_newlines(s@),
{
    let mut j: usize = s.len();
    assert(s@.subrange(0, j as int) =~= s@);
    while j > 0 && s[j - 1] == '\n'
        invariant
            j <= s@.len(),
            trailing_newlines(s@) == (s@.len() - j) + trailing_newlines(s@.subrange(0, j as int)),
        decreases j,
    {
        assert(s@.subrange(0, j as int).drop_last() =~= s@.subrange(0, j - 1));
        j -= 1;
    }
    if j > 0 {
        assert(s@.subrange(0, j as int).last() == s@[j - 1]);
    }
    assert(trailing_newlines(s@.subrange(0, j as int)) == 0);
    s.len() - j
}

/// Appends `content` after a separation of `needed` newlines; `exact` also cuts extra ones.
fn push_separated(out: &mut String, content: &str, needed: usize, exact: bool)
    requires
        needed >= 1,
    ensures
        final(out)@ == (if exact {
            spec_push_block_exact(old(out)@, content@, (needed - 1) as nat)
        } else {
            spec_push_block_n(old(out)@, content@, (needed - 1) as nat)
        }),
{
    let c = to_chars(content);
    if c.len() == 0 {
        return;
    }
    let mut o = to_chars(out.as_str());
    let ghost o0 = o@;
    if o.len() == 0 {
        o.push('\n');
        assert(o@ =~= seq!['\n']);
    } else {
        let t = count_trailing_newlines(&o);
        if t < needed {
            let mut k = t;
            while k < needed
                invariant
                    t <= k <= needed,
                    o@ == o0 + repeat('\n', (k - t) as nat),
                decreases needed - k,
            {
                o.push('\n');
                k += 1;
                assert(o@ =~= o0 + repeat('\n', (k - t) as nat));
            }
        } else if exact && t > needed {
            proof {
                lemma_trailing_newlines(o0);
            }
            let keep = o.len() - (t - needed);
            o.truncate(keep);
        }
    }
    push_all(&mut o, &c);
    if !(o.len() > 0 && o[o.len() - 1] == '\n') {
        o.push('\n');
    }
    *out = from_chars(&o);
}

/// Appends `content` after one blank line.
pub fn push_block(out: &mut String, content: &str)
    ensures
        final(out)@ == spec_push_block_n(old(out)@, content@, 1),
{
    push_separated(out, content, 2, false);
}

/// Appends `content` after at least `min_blanks` blank lines.
pub fn push_block_n(out: &mut String, content: &str, min_blanks: usize)
    requires
        min_blanks < usize::MAX,
    ensures
        final(out)@ == spec_push_block_n(old(out)@, content@, min_blanks as nat),
{
    push_separated(out, content, min_blanks + 1, false);
}

/// Appends `content` after exactly `blanks` blank lines.
pub fn push_block_exact(out: &mut String, content: &str, blanks: usize)
    requires
        blanks < usize::MAX,
    ensures
        final(out)@ == spec_push_block_exact(old(out)@, content@, blanks as nat),
{
    push_separated(out, content, blanks + 1, true);
}

} // verus!
