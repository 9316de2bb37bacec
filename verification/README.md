# pbkit

A protobuf toolkit: sorting and canonical formatting of `.proto` sources,
linting, decoding of protobuf wire data without a schema, a small JSONPath-like
selector over the decoded data, and proto-aware completion candidates.

The library under `src/` is written in Verus: each public function states what
it returns in its contract, and Verus proves the code against it.

- `text`: the character-level model (trimming, lines, searching, decimal
  numbers, lexicographic order) shared by the other modules.
- `proto_sort`: line-based sorting of `message`/`enum` blocks and field runs.
- `syntax`: the tree-sitter protobuf syntax tree as a library type, and its
  syntax errors.
- `proto_fmt`: the canonical layout rendered from the syntax tree.
- `lint`: header, naming, `proto3` and layout rules.
- `wire`, `json`, `path`, `output`: wire decoding, its JSON view, selection,
  and raw/hex/Base64 output.
- `schema`: completion candidates from a message/enum schema.
- `config`, `diff`: `pbkit.toml` settings and unified diffs.
- `sorting`: the stable sort shared by the sorters, with its laws.

`app/` holds the command line: arguments, files and streams, descriptor pools
(`prost-reflect`, `protox`) and printing.
