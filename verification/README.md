# tuc bounds

Parsing and use of the bounds that select parts of a line: `1`, `-1`,
`1:3`, `:3`, `3:`, comma separated lists of them, and format strings such as
`"Hello {1}, found {1:3} and {2,4}"`, where the text around `{..}` is
printed as it is.

The functions in `src/` are verified with Verus against contracts stated
over sequences of characters; the one call that is trusted, not verified, is
`String::push` (in `src/text.rs`):

- `src/number.rs`: reading and writing `i32` in decimal, with the proof that
  a written value reads back.
- `src/text.rs`: characters of a `str`, building a `String`, finding a
  character, replacing every occurrence of a pattern.
- `src/bounds.rs`: `Side`, `UserBounds`, their parsing and printing,
  `matches`, the order of bounds, `bounds_to_std_range`, and the laws that
  tie them together.
- `src/list.rs`: lists of bounds and format strings (`parse_bounds_list`,
  `parse_bounds_list_2`), `UserBoundsList::is_sortable` and `is_sorted`.

The tests under `tests/` run the library on concrete inputs.
