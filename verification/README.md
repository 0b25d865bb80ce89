# srither

A Slither Link solver whose library is verified with Verus.

- `src/` is the verified library:
  - `geom`, `position`: points, moves, rotations, cell ids, grid tables.
  - `union_find`, `sized_union_find`: union-find forests; the second keeps class sizes.
  - `puzzle`, `lattice_parser`, `puzzle_text`: the puzzle, its text form (a lattice of
    `+`, edges and hints, or rows of digits) read and written.
  - `side_map`: what is known of the sides of the cells, as a union-find over two keys per
    cell.
  - `pattern`, `theorem`, `theorem_parse`, `theorem_define`, `theorem_pool`: local
    theorems written as lattices, their symmetric images, and their matching on a board.
  - `connect_map`, `connect_analysis`: areas of cells known to share a side, and the
    decisions drawn from how they connect.
  - `rules`: deductions from the hints alone.
  - `solver`, `search`: the solving state and the search for solutions.
  - `pprint`, `parse_arg`: the layout of a solved puzzle as a table, and the values of the
    command line.
- `app/main.rs` is the command line program: `srither solve [--all] [--output-mode MODE]
  [--width N] [--height N] FILES...`.
- `tests/` runs the library on concrete puzzles.
