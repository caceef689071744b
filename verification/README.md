# room_tensor

A recursive room tensor: rooms at six depths (`Floor` down to `Metal`), placed
on the grid of a tensor layer, layers stacked into a recursive tensor, and
links between rooms at different depths.

- `src/` is the verified library: depths and their descent, rooms (generic
  over the state kept per connection and per tile), grid queries on a layer
  (room at a cell, neighbours, columns, rows, diagonals), clocks, layer
  stacking and cross-layer links, with their contracts and laws.
- `app/` holds the floating-point side: connection strength and flavour,
  tile appearance, and the statistics built on them.
- `tests/` runs the library on concrete values.
