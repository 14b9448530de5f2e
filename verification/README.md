# lotus

The core of the Lotus compiler as a verified library: number literals,
dependent-type terms, and the elaborator that turns surface syntax into core
terms, each function with a contract proved by Verus. The elaborator's
contracts fix what it produces up to the names it resolves and the holes it
makes; where it reported nothing and ran out of nothing, they also rule out a
poisoned result beyond the gaps of the source.

## Layout

- `src/` — the library.
  - Text and literals: `text`, `literals`, `ids`, `diagnostics`.
  - Core terms: `term`, `subst`, `reduce`, `local`, `meta`, `env`, `ctx`.
  - Elaboration: `unify`, `occurs` (what a term reaches through the
    solutions, and why they stay acyclic), `zonk`, `infer`, `app`, `report`, `lower`
    (names, types, binders), `expr` (expressions and blocks), `decl`
    (signatures, definition bodies, inductives), `suggest`.
  - Names a file sees: `naming`, `namespace`, `import`, `item_tree`,
    `lang_items`, `def_map`, `collect`.
  - Programs and sources: `structure`, `db`.
  - After elaboration: `pir` (runtime types), `nir` (their dumps), `debug`
    (printing terms and levels).
- `tests/` — tests of the library on concrete values.
- `app/` — the command line: argument parsing, reading files, rendering
  diagnostics.

The surface syntax is taken as already parsed: `ast` holds the nodes the
elaborator reads.
