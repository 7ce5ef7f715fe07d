# duralade

The loading front end of the Duralade language as a verified library: the
lexical and syntactic checks of source text (trivia, identifiers, imports,
types, literals, construct headers and modifiers, labels), the type registry
and load context, field-default dependency order, scopes, project
configuration and module discovery rules. Every function in `src/` is proved
against its contract with Verus, except five small trusted wrappers around
std (`char::is_alphanumeric`, `char::is_lowercase`, `char::from_u32`,
`str::from_utf8`, `Arc::clone`), marked `#[verifier::external_body]`, whose
contracts restate std's documentation.

- `src/model/`: the syntax tree and names.
- `src/parse/`: the parser pieces over a byte-level `ParseContext`.
- `src/load/`: the registry of modules, declarations and interned types, the
  load context, declaration collection, field evaluation order and call types.
- `src/scope.rs`, `src/project.rs`, `src/disk_fetch.rs`: scopes, project
  settings and module file lookup.
- `app/`: file-system and `duralade.toml` plumbing around the library.
- `tests/`: tests run against the compiled library.
