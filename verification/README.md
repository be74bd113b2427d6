# pine_rs

Analysis of Pine Script v6: a document model over a tree-sitter syntax tree, a
linter, the features of a language server, and the tools of an MCP server. The
library is verified with Verus.

- `src/` is the library. `text` and `strings` map bytes, characters and UTF-16
  columns; `syntax` and `grammar` hold the syntax tree as plain values and call
  the parser; `document` is a parsed text; `symbols`, `imports`, `check` and
  `logiclint` are the analyses; `builtins` is the database of Pine's builtins;
  `features` and `backend` are what the language server computes, `cli` and `mcp`
  what the linter prints and the MCP server answers.
- `app/` is the program around it: one binary that is the linter, and, called as
  `pine-lsp` or `pine-mcp`, the language server or the MCP server. It needs the
  generated parser of the Pine grammar at link time, and reads the builtins from
  the JSON files in the directory that `PINE_DATA` names.
- `tests/` exercise the library, on trees that are written down and with a small
  real grammar.
