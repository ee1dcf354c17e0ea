# org2mdx

Convert between Org and MDX through one syntax tree, with the conversion logic
verified by Verus.

## Layout

- `src/` — the verified library.
  - `parser/org` reads Org documents (keyword lines, headings, blocks, lists,
    paragraphs, `#+INCLUDE:` directives); `parser/inline` reads inline markup.
  - `parser/mdx` sets export and JSX blocks aside, reads YAML front matter, and
    builds the tree from a Markdown tree; `parser/jsx` finds JSX blocks.
  - `renderer` writes the tree as MDX or Org, and converts HTML and JSX fragments
    (`html_law` proves that canonical HTML survives the trip to JSX and back).
  - `util` holds keyword lines, URL and YAML escaping, date conversion, and the
    pass-by-pass HTML/JSX rewriter.
  - `inline`, `inline_parser`, `converter`, `paragraph`, `frontmatter`, `render`,
    `block` and `list` hold helpers for writing Org as Markdown line by line: inline
    conversion, keyword directives, the front matter builder, paragraph collection,
    block kinds, list items and the spacing between blocks. There is no driver that
    runs them over a whole document; Org→MDX is `parser/org` followed by
    `renderer/mdx_renderer`.
- `tests/` — tests run against the compiled library.
- `app/` — the command-line program: file reading and writing, include files,
  and JSON output. (The `markdown` crate's tree is read in `src/parser/mdx`.)

## Usage

```bash
org2mdx input.org                      # Org → MDX
org2mdx input.mdx --from mdx --to org  # MDX → Org
org2mdx input.org --to ast             # Org → AST (JSON)
```
