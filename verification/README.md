# geocoder

Offline geocoding over a compact binary index.

- `src/server/` finds the address of a point: the nearest address point, line of
  house numbers and street, and the administrative areas round it.
- `src/search/` finds places by name: it lists areas, named places and streets,
  puts them into a full-text index with the names of the areas round them, and
  ranks what the index finds.
- `src/bytes.rs`, `src/cells.rs`, `src/geometry.rs`, `src/boundary.rs`,
  `src/ieee.rs` and `src/text.rs` hold what both build on.

The library is verified with Verus. Coordinates, areas, distances and scores
are IEEE-754 numbers, and the library carries them as bit patterns: it orders
and compares them itself, and takes the arithmetic on them as functions. The
contracts say what comes out for whatever these functions answer, and the laws
named `..._is_determined` say that it is one outcome as long as they answer a
question always the same way. Distances are squared, in radians.

What is trusted: `s2` for the cells of the sphere, `tantivy` for the full-text
index, and a few text functions of the standard library. Each such call stands
in a small function of its own, or under an `assume_specification`, whose
comment says what is claimed of it: in `cells.rs`, `text.rs`, `bytes.rs` and
`search/engine.rs`.

An index file that points outside a table, or a street without points, is
reported as an `IndexError`.

`app/` holds the two HTTP services, the files, and the floating-point
arithmetic.
