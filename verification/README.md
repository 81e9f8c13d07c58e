# lute

Immutable maps and sets over fixed collections of up to 65535 entries, looked up through a minimal
perfect hash function, with their behaviour specified and proved with Verus.

A map is built once from its entries. Construction searches for a seed and small tables under which
every key hashes to its own position: maps of one entry are scanned, maps of up to ten entries first try
a seed under which the reduced hashes are already distinct (the direct strategy), and larger maps group
their keys into buckets and give each bucket the smallest pilot that scatters its keys onto free slots
(the pilot strategy). A lookup then takes one hash, a table read or two and one key comparison.

## Hashes and targets

Keys are hashed with `foldhash`, whose arithmetic is fixed for the target the crate is built for but
differs where pointers are 32 bits wide. Tables found on one target are therefore valid on that target:
parts written out by code generation and read back on another target go through
`FrozenMap::from_baked_parts_checked`, which tests that the tables still send every key to its entry.

## Layout

- `src/` — the verified library.
  - `kernel.rs`: hash reduction, bucket selection, pilot scrambling and table sizes.
  - `key.rs`: keys, their mathematical values, and hashing with `foldhash` (the trusted wrappers).
  - `counting.rs`, `pilots.rs`: the bucket layout, the ordering of buckets by size, and the pilot search.
  - `pilot_search.rs`: the pilot search as a mathematical process, which the search is proved to follow.
  - `construct.rs`: seed streams (`rand_xoshiro`), the direct strategy, `construct`, `gather`.
  - `frozen_map.rs`, `frozen_set.rs`, `iter.rs`, `cow.rs`: maps, sets, their iterators and slices. Maps
    compare their values through `ValueEq`, implemented for integers, `bool`, `char`, `()`, `&str`, `String`
    and vectors of such values.
  - `literal.rs`: bit patterns of integer literals.
  - `key_expr.rs`: keys written as Rust expressions, the values they stand for, the hash writes of
    those values, and the tables of a map whose keys are written so (`compute_parts`).
  - `write_hasher.rs`: makes those hash writes on a `foldhash` hasher (the trusted wrappers), which
    gives such keys their hashes.
- `tests/` — tests run against the compiled library.
- `app/` — code generation: writes a map or set as a Rust expression that rebuilds it (`databake`), and
  reads keys written as Rust syntax (`syn`) into the library's key expressions, and expands `map!` and
  `set!` input into the expression that rebuilds the map or set (`macros.rs`).
