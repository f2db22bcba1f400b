# core_ethos

A Verus library for the strict bootstrap Ethos reader and its Interface, Nexus
and Sema semantic forms. Every function in `src/` carries a contract that Verus
proves, except the few wrappers in `src/text.rs` whose contracts restate
std's documentation and are trusted; identities are caller-issued `EncodedName` values that the library
never derives or inspects beyond their vocabulary.

Layout:

- `src/bootstrap/` — the reader pipeline: metadata snapshot, identity-schema
  catalog and prior vocabulary (`catalog`), the bracket grammar (`grammar`),
  occurrence planning (`reader`, `planning`, `resolution`), naming assignments
  (`assignment`), sealing into a prepared transaction (`sealing`, `reify`,
  `declare`, `assemble`, `imports`, `seal`), defensive re-validation of drafts
  (`prepared`), the canonical writer (`writer`), and the laws every accepted
  transaction obeys (`laws`).
- `src/whole/` — the typed whole-file document, its identity validation, and
  the Universal checks on grammar identities and builtin priors.
- `src/slice_one.rs` — the first six-slot slice and its validation.
- `src/document.rs`, `src/rules.rs`, `src/declaration.rs` — the closed
  vocabularies of the flat document grammar.
- `src/text.rs` — the few `char`/`String` calls of std that vstd does not
  specify, behind trusted wrappers.
- `tests/` — scenario tests run against the compiled library.
