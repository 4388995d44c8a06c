# washi

Washi is a WGSL minifier: it renames the identifiers of shaders to short names,
keeping entry points and names that start with `_` as they are, and strips the
source text of what it does not need.

The library is verified with Verus.

- `src/text.rs` — characters and strings, and what `char::is_whitespace` and
  `unicode_ident::is_xid_continue` are taken to answer.
- `src/format.rs` — the text passes (whitespace, trailing commas, doubled
  parentheses), with `minify_wgsl_source` proved equal to `minified_source`.
- `src/ident.rs` — the short-name generator `Identifier` and the reserved names.
- `src/syntax.rs` — the parts of a WGSL syntax tree that renaming reads and writes.
- `src/walk.rs` — the order in which renaming visits a module, as a list of events.
- `src/renaming.rs` — renaming as a function from state and event to state and name.
- `src/minifier.rs` — `Minifier`, whose `minify` is proved to perform exactly the
  renaming of `renaming.rs` over the events of `walk.rs`, and `write_map`.
- `src/names.rs` — the small maps and sets the minifier keeps.
- `src/paths.rs` — choosing the directory of the map file (the root-most folder the
  files share), and telling minified outputs apart from sources.
- `src/wgsl.rs` — parsing and printing with `wgsl-parse`, and `minify_text`, which
  takes WGSL source to minified WGSL source.
- `src/laws.rs` — properties of renaming and of the text passes, proved.
- `src/scoping.rs` — which declaration each use denotes, and the proof that renaming
  a module keeps every use pointing at the same declaration.
- `app/` — the command line program: arguments, globs and files.
