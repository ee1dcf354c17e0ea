//! The `#+begin_...` line of an Org block.
use vstd::prelude::*;
use crate::text::{
    eq_str, from_chars, has_prefix, lowercase, slice, split_whitespace, starts_with_str,
    str_lowercase, to_chars, trim, trim_chars, views, words,
};

verus! {

/// Options of a source block.
pub struct SrcOptions {
    pub lang: String,
    pub exports: Option<String>,
}

/// Options of an export block.
pub struct ExportOptions {
    pub export_type: String,
    pub exports: Option<String>,
}

/// The kind of an Org block.
pub enum BlockType {
    Src(SrcOptions),
    Example,
    Quote,
    Center,
    Export(ExportOptions),
    Unknown(String),
}

/// The mathematical form of a block kind.
pub enum SBlockType {
    Src { lang: Seq<char>, exports: Option<Seq<char>> },
    Example,
    Quote,
    Center,
    Export { export_type: Seq<char>, exports: Option<Seq<char>> },
    Unknown(Seq<char>),
}

pub open spec fn opt_view(o: Option<String>) -> Option<Seq<char>> {
    match o {
        Some(s) => Some(s@),
        None => None,
    }
}

impl View for BlockType {
    type V = SBlockType;

    open spec fn view(&self) -> SBlockType {
        match self {
            BlockType::Src(o) => SBlockType::Src { lang: o.lang@, exports: opt_view(o.exports) },
            BlockType::Example => SBlockType::Example,
            BlockType::Quote => SBlockType::Quote,
            BlockType::Center => SBlockType::Center,
            BlockType::Export(o) => SBlockType::Export {
                export_type: o.export_type@,
                exports: opt_view(o.exports),
            },
            BlockType::Unknown(n) => SBlockType::Unknown(n@),
        }
    }
}

/// The keyword that closes a block of this kind (`#+end_<keyword>`).
pub open spec fn spec_end_keyword(b: SBlockType) -> Seq<char> {
    match b {
        SBlockType::Src { .. } => "src"@,
        SBlockType::Example => "example"@,
        SBlockType::Quote => "quote"@,
        SBlockType::Center => "center"@,
        SBlockType::Export { .. } => "export"@,
        SBlockType::Unknown(n) => n,
    }
}

/// The value of the last `:exports <value>` pair among `parts[i..]`.
pub open spec fn exports_scan(parts: Seq<Seq<char>>, i: int, cur: Option<Seq<char>>) -> Option<Seq<char>>
    decreases parts.len() - i,
{
    if i < 0 || i >= parts.len() {
        cur
    } else if has_prefix(parts[i], ":"@) && parts[i].subrange(1, parts[i].len() as int)
        == "exports"@ && i + 1 < parts.len() {
        exports_scan(parts, i + 2, Some(parts[i + 1]))
    } else {
        exports_scan(parts, i + 1, cur)
    }
}

/// The first word, or the empty string.
pub open spec fn first_word(parts: Seq<Seq<char>>) -> Seq<char> {
    if parts.len() > 0 {
        parts[0]
    } else {
        Seq::empty()
    }
}

/// The block kind named by a `#+begin_...` line (compared in lower case).
pub open spec fn spec_block_begin(line: Seq<char>) -> SBlockType {
    let lower = str_lowercase(trim(line));
    if has_prefix(lower, "#+begin_src"@) {
        let parts = words(trim(lower.subrange(11, lower.len() as int)));
        let l0 = first_word(parts);
        let lang = if l0 == "c++"@ || l0 == "cpp"@ {
            "c"@
        } else {
            l0
        };
        SBlockType::Src { lang, exports: exports_scan(parts, 1, None) }
    } else if has_prefix(lower, "#+begin_example"@) {
        SBlockType::Example
    } else if has_prefix(lower, "#+begin_quote"@) {
        SBlockType::Quote
    } else if has_prefix(lower, "#+begin_center"@) {
        SBlockType::Center
    } else if has_prefix(lower, "#+begin_export"@) {
        let parts = words(trim(lower.subrange(14, lower.len() as int)));
        SBlockType::Export { export_type: first_word(parts), exports: exports_scan(parts, 1, None) }
    } else if has_prefix(lower, "#+begin_"@) {
        SBlockType::Unknown(lower.subrange(8, lower.len() as int))
    } else {
        SBlockType::Unknown(lower)
    }
}

impl BlockType {
    /// The keyword that closes a block of this kind.
    pub fn end_keyword(&self) -> (r: String)
        ensures
            r@ == spec_end_keyword(self@),
    {
        match self {
            BlockType::Src(_) => from_chars(&to_chars("src")),
            BlockType::Example => from_chars(&to_chars("example")),
            BlockType::Quote => from_chars(&to_chars("quote")),
            BlockType::Center => from_chars(&to_chars("center")),
            BlockType::Export(_) => from_chars(&to_chars("export")),
            BlockType::Unknown(name) => from_chars(&to_chars(name.as_str())),
        }
    }
}

pub(crate) fn scan_exports(parts: &Vec<Vec<char>>) -> (r: Option<Vec<char>>)
    ensures
        r matches Some(v) ==> exports_scan(views(parts@), 1, None) == Some(v@),
        r is None ==> exports_scan(views(parts@), 1, None) is None,
{
    let ghost pv = views(parts@);
    let mut exports: Option<Vec<char>> = None;
    let mut i: usize = 1;
    while i < parts.len()
        invariant
            1 <= i,
            pv == views(parts@),
            exports_scan(pv, 1, None) == exports_scan(pv, i as int, match exports {
                Some(v) => Some(v@),
                None => None,
            }),
        decreases parts.len() - i,
    {
        let token = &parts[i];
        proof {
            reveal_strlit(":");
        }
        if starts_with_str(token, ":") && i + 1 < parts.len() {
            let key = slice(token, 1, token.len());
            if eq_str(&key, "exports") {
                exports = Some(slice(&parts[i + 1], 0, parts[i + 1].len()));
                assert(parts@[i + 1]@.subrange(0, parts@[i + 1]@.len() as int) =~= parts@[i + 1]@);
                i += 2;
                continue;
            }
        }
        i += 1;
    }
    exports
}

pub(crate) fn first_word_of(parts: &Vec<Vec<char>>) -> (r: Vec<char>)
    ensures
        r@ == first_word(views(parts@)),
{
    if parts.len() > 0 {
        let r = slice(&parts[0], 0, parts[0].len());
        assert(parts@[0]@.subrange(0, parts@[0]@.len() as int) =~= parts@[0]@);
        r
    } else {
        Vec::new()
    }
}

fn opt_string(o: Option<Vec<char>>) -> (r: Option<String>)
    ensures
        opt_view(r) == match o {
            Some(v) => Some(v@),
            None => None,
        },
{
    match o {
        Some(v) => Some(from_chars(&v)),
        None => None,
    }
}

/// Classifies a `#+begin_...` line.
pub fn parse_block_begin(line: &str) -> (r: BlockType)
    ensures
        r@ == spec_block_begin(line@),
{
    let lower = lowercase(&trim_chars(&to_chars(line)));
    proof {
        reveal_strlit("#+begin_src");
        reveal_strlit("#+begin_export");
        reveal_strlit("#+begin_");
    }
    if starts_with_str(&lower, "#+begin_src") {
        let parts = split_whitespace(&trim_chars(&slice(&lower, 11, lower.len())));
        let l0 = first_word_of(&parts);
        let lang = if eq_str(&l0, "c++") || eq_str(&l0, "cpp") {
            to_chars("c")
        } else {
            l0
        };
        let exports = scan_exports(&parts);
        BlockType::Src(SrcOptions { lang: from_chars(&lang), exports: opt_string(exports) })
    } else if starts_with_str(&lower, "#+begin_example") {
        BlockType::Example
    } else if starts_with_str(&lower, "#+begin_quote") {
        BlockType::Quote
    } else if starts_with_str(&lower, "#+begin_center") {
        BlockType::Center
    } else if starts_with_str(&lower, "#+begin_export") {
        let parts = split_whitespace(&trim_chars(&slice(&lower, 14, lower.len())));
        let export_type = first_word_of(&parts);
        let exports = scan_exports(&parts);
        BlockType::Export(
            ExportOptions { export_type: from_chars(&export_type), exports: opt_string(exports) },
        )
    } else if starts_with_str(&lower, "#+begin_") {
        BlockType::Unknown(from_chars(&slice(&lower, 8, lower.len())))
    } else {
        BlockType::Unknown(from_chars(&lower))
    }
}


/// The five block kinds named by a word of their own.
pub open spec fn named_block_word(w: Seq<char>) -> bool {
    w == "src"@ || w == "example"@ || w == "quote"@ || w == "center"@ || w == "export"@
}

/// `x` starts with the block word `w` where it starts with the block word `k`, only when
/// the two are the same word.
proof fn lemma_block_word_prefix(x: Seq<char>, k: Seq<char>, w: Seq<char>)
    requires
        named_block_word(k),
        named_block_word(w),
        has_prefix(x, k),
    ensures
        has_prefix(x, w) <==> w == k,
{
    reveal_strlit("src");
    reveal_strlit("example");
    reveal_strlit("quote");
    reveal_strlit("center");
    reveal_strlit("export");
    if has_prefix(x, w) && w != k {
        assert(x[0] == k[0] && x[0] == w[0]);
        assert(x[1] == k[1] && x[1] == w[1]);
        assert(x[2] == k[2] && x[2] == w[2]);
        if k.len() > 3 && w.len() > 3 {
            assert(x[3] == k[3] && x[3] == w[3]);
        }
    }
}

/// `"#+begin_"` followed by `x` starts with `"#+begin_"` followed by `w` exactly when `x`
/// starts with `w`.
proof fn lemma_begin_prefix(x: Seq<char>, w: Seq<char>)
    ensures
        has_prefix("#+begin_"@ + x, "#+begin_"@ + w) <==> has_prefix(x, w),
{
    reveal_strlit("#+begin_");
    let b = "#+begin_"@;
    let l = b + x;
    if has_prefix(x, w) {
        assert(l.subrange(0, (b + w).len() as int) =~= b + w);
    }
    if has_prefix(l, b + w) {
        assert(x.subrange(0, w.len() as int) =~= l.subrange(8, 8 + w.len() as int));
        assert(l.subrange(8, 8 + w.len() as int) =~= (b + w).subrange(8, 8 + w.len() as int));
        assert((b + w).subrange(8, 8 + w.len() as int) =~= w);
    }
}

/// A block is closed by the keyword it was opened with: a `#+begin_<kw>` line (compared
/// trimmed and in lower case) names a kind whose end keyword is `kw`, for the five named
/// kinds (followed by the end of the line or a space) and for any other word that does
/// not start with one of them.
pub proof fn law_block_end_pairs_begin(line: Seq<char>, kw: Seq<char>)
    requires
        ({
            let l = str_lowercase(trim(line));
            ||| named_block_word(kw) && (l == "#+begin_"@ + kw || has_prefix(l, "#+begin_"@ + kw + " "@))
            ||| l == "#+begin_"@ + kw && !has_prefix(kw, "src"@) && !has_prefix(kw, "example"@)
                && !has_prefix(kw, "quote"@) && !has_prefix(kw, "center"@) && !has_prefix(kw, "export"@)
        }),
    ensures
        spec_end_keyword(spec_block_begin(line)) == kw,
{
    reveal_strlit("#+begin_");
    reveal_strlit("#+begin_src");
    reveal_strlit("#+begin_example");
    reveal_strlit("#+begin_quote");
    reveal_strlit("#+begin_center");
    reveal_strlit("#+begin_export");
    reveal_strlit("src");
    reveal_strlit("example");
    reveal_strlit("quote");
    reveal_strlit("center");
    reveal_strlit("export");
    reveal_strlit(" ");
    let l = str_lowercase(trim(line));
    let b = "#+begin_"@;
    let long = b + kw + " "@;
    if l == b + kw {
        assert(l.subrange(0, 8) =~= b);
    } else if named_block_word(kw) && has_prefix(l, long) {
        assert(l.subrange(0, long.len() as int) == long);
        assert forall|i: int| 0 <= i < 8 implies l[i] == b[i] by {
            assert(l[i] == l.subrange(0, long.len() as int)[i]);
            assert(long[i] == b[i]);
        }
        assert(l.subrange(0, 8) =~= b);
    }
    assert(has_prefix(l, b));
    let x = l.subrange(8, l.len() as int);
    assert(l =~= b + x);
    assert("#+begin_src"@ =~= b + "src"@);
    assert("#+begin_example"@ =~= b + "example"@);
    assert("#+begin_quote"@ =~= b + "quote"@);
    assert("#+begin_center"@ =~= b + "center"@);
    assert("#+begin_export"@ =~= b + "export"@);
    lemma_begin_prefix(x, "src"@);
    lemma_begin_prefix(x, "example"@);
    lemma_begin_prefix(x, "quote"@);
    lemma_begin_prefix(x, "center"@);
    lemma_begin_prefix(x, "export"@);
    if named_block_word(kw) {
        if l == b + kw {
            assert(x =~= kw);
            assert(x.subrange(0, kw.len() as int) =~= kw);
        } else {
            assert(long.len() == 8 + kw.len() + 1);
            assert(kw.len() <= x.len());
            assert(l.subrange(0, long.len() as int) == long);
            assert forall|i: int| 0 <= i < kw.len() implies x[i] == kw[i] by {
                assert(x[i] == l[8 + i]);
                assert(l[8 + i] == l.subrange(0, long.len() as int)[8 + i]);
                assert(long[8 + i] == kw[i]);
            }
            assert(x.subrange(0, kw.len() as int) =~= kw);
        }
        assert(has_prefix(x, kw));
        lemma_block_word_prefix(x, kw, "src"@);
        lemma_block_word_prefix(x, kw, "example"@);
        lemma_block_word_prefix(x, kw, "quote"@);
        lemma_block_word_prefix(x, kw, "center"@);
        lemma_block_word_prefix(x, kw, "export"@);
    } else {
        assert(x =~= kw);
    }
}

} // verus!
