# hnsw

An index for approximate nearest-neighbour search: a hierarchical graph of small
worlds over a store of vectors, written and verified in Verus.

- `src/` is the library. `builder` is the index; `search` and `insertion` walk
  the graph of `graph` over the vectors of `store`; `layer` and `walk` say what
  such a walk is; `laws` and `growth` prove what holds of every search and of
  every index that has grown by insertions.
- `tests/` runs the library.
- `app/` wraps it for floating-point distances, stores that are awaited and
  levels drawn at random.

A search or an insertion can be driven step by step: it asks for one distance at
a time (`NearestSearch`, `GraphInsertion`), so that the vectors may come from
anywhere. `nearest` and `insert_graph` drive it over a store that can be read
directly.

Components are the bit patterns of single-precision numbers, and a distance is an
integer that orders as the distances do.
