# aider_patcher

Applies SEARCH/REPLACE edit blocks (as produced in `<<<<<<< SEARCH` /
`=======` / `>>>>>>> REPLACE` form) to source files. Each block is placed by
the first strategy of a ladder that succeeds:

1. a blank search creates or appends;
2. exact line match;
3. line match up to one common indentation (also with a blank first search
   line dropped);
4. `...`-elided segments, each of which must occur exactly once;
5. the most similar window of lines (by `similar`'s line-diff ratio, at least
   0.85);
6. for Rust and TypeScript/JavaScript files, replacement of a whole
   declaration found by name in the tree-sitter syntax tree.

For those files the patched text must then parse without a syntax error.

The library in `src/` is written in Verus. Its functions are verified
against contracts over mathematical models (`Seq<char>` texts, sequences of
lines, pre-order node lists). The calls into `similar`, `tree-sitter` and
`String::push` sit behind a few trusted wrappers whose contracts are taken on
trust: the line-diff ratio and the parse of a text are named results, functions
of their inputs that the contracts do not spell out.

- `text.rs` — whitespace, UTF-8 widths, conversions between strings and characters
- `lines.rs` — `prep`, line splitting, the exact tier
- `indent.rs` — the indentation-adjusted tier
- `elision.rs` — the `...` tier
- `fuzzy.rs` — the similarity tier and the context shown on failure
- `chunk.rs` — the ladder (`replace_most_similar_chunk`)
- `blocks.rs` — reading SEARCH/REPLACE blocks from a diff
- `syntax.rs` — syntax trees and the declaration tier
- `patch.rs` — applying all blocks of one file, and the all-or-nothing
  choice of the files to write

`app/main.rs` is the command-line front end: it reads the JSON patch and
the files, applies each file's diff with the library, and writes the files
that the library picks: none unless every file was read, every block of
every file was placed and no patched file has a syntax error.
