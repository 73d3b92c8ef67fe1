# atml-language-core

Editor-independent language intelligence for ATML documents, verified with
Verus, and a language server around it.

## Layout

- `src/` — the verified library.
  - `document.rs`: the parsed-document model and the calls into `toml_dom`.
  - `semantic.rs`, `builder.rs`, `cycles.rs`, `chain.rs`: the semantic index
    (definitions, references, quantities, inheritance) and its cycles.
  - `diagnostics.rs`, `sorting.rs`, `recovery.rs`: semantic diagnostics, their
    order, and the position-preserving recovery of unresolved references.
  - `symbols.rs`: the document outline.
  - `completion.rs`, `navigation.rs`, `editing.rs`: completion, hover, go to
    definition, find references, semantic tokens, rename and quick fixes.
  - `positions.rs`, `session.rs`, `schedule.rs`, `protocol.rs`: editor
    positions (lines and UTF-16 columns), the open documents and their
    versions, debounced analysis and the relative token encoding.
- `tests/` — tests of the library.
- `app/` — the language server: LSP transport, event loop and conversions
  between LSP types and the library's types.
