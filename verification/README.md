# aom_encode

Decision logic of an AV1 encoder, verified with Verus: partitioning from
variance, the search for transform types and sizes, pruning of prediction
modes, reference buffers of a group of pictures, the temporal dependency
model, temporal filtering, resizing, and the settings of each speed.

- `src/` is the library. Every function has a contract that says what it
  returns for every input it accepts; what relates several functions is stated
  by the public proof functions whose names begin with `law_`.
- `tests/` runs the library on concrete values.
- `app/` connects the library to a signal-processing backend, and holds what
  works in floating point.

The library never calls a transform or a quantizer. A search hands out what it
needs next, and takes the answer: see `type_search`, `tx_size_search`,
`var_tx_tree` and `var_tx_uv`.
