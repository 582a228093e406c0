# etanol

The verified core of Etanol, a Kotlin language server.

- `src/` is the library, verified with Verus:
  - `documents`: the store of open documents and what opening, changing and
    closing a document does to it;
  - `completion`: the completion context of a document and the items offered;
  - `diagnostics`: diagnostics read from the error output of `kotlinc`;
  - `capabilities`: what the server advertises on `initialize`;
  - `temp_file`: names of the scratch files handed to `kotlinc`;
  - `fixtures`: the tree-sitter corpus format and the fixture listings;
  - `nix`: task names read from a Nix expression with `rnix`;
  - `pattern`: regular expressions run by the `regex` crate;
  - `text`: character-level helpers (lines, trimming, numbers).
- `app/` is the server around it: the LSP plumbing (`tower-lsp`, `tokio`),
  the `kotlinc` process, the file system.
- `tests/` runs the library on concrete inputs.
