//! `#+begin_...` lines as the Markdown writer classifies them: a source block keeps its
//! whole language text, an export block its type as written.
use vstd::prelude::*;
use crate::parser::org::block::first_word;
use crate::text::{
    eq_str, from_chars, has_prefix, lowercase, slice, split_whitespace, starts_with_str,
    str_lowercase, to_chars, trim, trim_chars, views, words,
};

verus! {

/// The kind of a block, with what its first line says of it.
pub enum BlockType {
    Src(String),
    Example,
    Quote,
    Center,
    Export(String),
    Unknown(String),
}

/// The mathematical form of a block kind.
pub enum SBlock {
    Src(Seq<char>),
    Example,
    Quote,
    Center,
    Export(Seq<char>),
    Unknown(Seq<char>),
}

impl View for BlockType {
    type V = SBlock;

    open spec fn view(&self) -> SBlock {
        match self {
            BlockType::Src(l) => SBlock::Src(l@),
            BlockType::Example => SBlock::Example,
            BlockType::Quote => SBlock::Quote,
            BlockType::Center => SBlock::Center,
            BlockType::Export(t) => SBlock::Export(t@),
            BlockType::Unknown(n) => SBlock::Unknown(n@),
        }
    }
}

/// The keyword that closes a block of the kind.
pub open spec fn spec_end_keyword(b: SBlock) -> Seq<char> {
    match b {
        SBlock::Src(_) => "src"@,
        SBlock::Example => "example"@,
        SBlock::Quote => "quote"@,
        SBlock::Center => "center"@,
        SBlock::Export(_) => "export"@,
        SBlock::Unknown(n) => n,
    }
}

/// The block kind named by a `#+begin_...` line, compared in lower case: a source block's
/// language is the rest of the line (`c++` and `cpp` read as `c`), an export block's type
/// is the rest of the line as written (empty unless the line is in lower case), and any
/// other kind is named by its first word (`unknown` when there is none).
pub open spec fn spec_block_begin(line: Seq<char>) -> SBlock {
    let lower = str_lowercase(trim(line));
    if has_prefix(lower, "#+begin_src"@) {
        let lang = trim(lower.subrange(11, lower.len() as int));
        SBlock::Src(
            if lang == "c++"@ || lang == "cpp"@ {
                "c"@
            } else {
                lang
            },
        )
    } else if has_prefix(lower, "#+begin_example"@) {
        SBlock::Example
    } else if has_prefix(lower, "#+begin_quote"@) {
        SBlock::Quote
    } else if has_prefix(lower, "#+begin_center"@) {
        SBlock::Center
    } else if has_prefix(lower, "#+begin_export"@) {
        let t = trim(line);
        SBlock::Export(
            if has_prefix(t, "#+begin_export"@) {
                trim(t.subrange(14, t.len() as int))
            } else {
                Seq::empty()
            },
        )
    } else {
        let rest = if has_prefix(lower, "#+begin_"@) {
            lower.subrange(8, lower.len() as int)
        } else {
            "unknown"@
        };
        let ws = words(rest);
        SBlock::Unknown(
            if ws.len() > 0 {
                first_word(ws)
            } else {
                "unknown"@
            },
        )
    }
}

impl BlockType {
    /// The keyword that closes a block of this kind.
    pub fn end_keyword(&self) -> (r: String)
        ensures
            r@ == spec_end_keyword(self@),
    {
        match self {
            BlockType::Src(_) => from_chars(&to_chars("src")),
            BlockType::Example => from_chars(&to_chars("example")),
            BlockType::Quote => from_chars(&to_chars("quote")),
            BlockType::Center => from_chars(&to_chars("center")),
            BlockType::Export(_) => from_chars(&to_chars("export")),
            BlockType::Unknown(name) => from_chars(&to_chars(name.as_str())),
        }
    }
}

/// Classifies a `#+begin_...` line.
pub fn parse_block_begin(line: &str) -> (r: BlockType)
    ensures
        r@ == spec_block_begin(line@),
{
    let t = trim_chars(&to_chars(line));
    let lower = lowercase(&t);
    proof {
        reveal_strlit("#+begin_src");
        reveal_strlit("#+begin_export");
        reveal_strlit("#+begin_");
        reveal_strlit("unknown");
    }
    if starts_with_str(&lower, "#+begin_src") {
        let lang = trim_chars(&slice(&lower, 11, lower.len()));
        let lang = if eq_str(&lang, "c++") || eq_str(&lang, "cpp") {
            to_chars("c")
        } else {
            lang
        };
        BlockType::Src(from_chars(&lang))
    } else if starts_with_str(&lower, "#+begin_example") {
        BlockType::Example
    } else if starts_with_str(&lower, "#+begin_quote") {
        BlockType::Quote
    } else if starts_with_str(&lower, "#+begin_center") {
        BlockType::Center
    } else if starts_with_str(&lower, "#+begin_export") {
        if starts_with_str(&t, "#+begin_export") {
            BlockType::Export(from_chars(&trim_chars(&slice(&t, 14, t.len()))))
        } else {
            BlockType::Export(from_chars(&Vec::new()))
        }
    } else {
        let rest = if starts_with_str(&lower, "#+begin_") {
            slice(&lower, 8, lower.len())
        } else {
            to_chars("unknown")
        };
        let ws = split_whitespace(&rest);
        if ws.len() > 0 {
            let w = slice(&ws[0], 0, ws[0].len());
            assert(ws@[0]@.subrange(0, ws@[0]@.len() as int) =~= ws@[0]@);
            assert(first_word(views(ws@)) == ws@[0]@);
            BlockType::Unknown(from_chars(&w))
        } else {
            BlockType::Unknown(from_chars(&to_chars("unknown")))
        }
    }
}

} // verus!
