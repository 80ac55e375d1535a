# revql

GraphQL object reverse lookup: given an introspection result and a search
term, list the paths of fields that lead from `Query` and `Mutation` to every
type the term selects (by type name, by field name, or by description, with
exact or substring matching, case-sensitive or not).

## Layout

- `src/` — the verified library (Verus).
  - `text.rs`: character-level string operations (equality, substring search,
    Unicode white-space trimming, first-occurrence search).
  - `schema.rs`: the schema model, term matching (`MatchConfig`), the type
    queries, and the `TypeMap` from names to types.
  - `path.rs`: the depth-first path search, its specification as an
    enumeration, and the proof that it finds exactly the routes from the start
    type to the target (up to the depth and count limits).
  - `search.rs`: target selection, searches from the root types, and the
    output lines.
  - `network.rs`: the default introspection query and request-header parsing.
  - `args.rs`: the run's options as plain values.
- `app/` — the command-line program: argument parsing, file and network I/O,
  JSON decoding, and printing.
- `tests/` — tests of the library.
