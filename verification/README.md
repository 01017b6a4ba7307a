# opto_synth

Planning steps of a hardware synthesizer, written in Verus. The functions of the
library state what they return or change, and Verus proves that they do.

- `src/word` holds the word-level netlist: values, operations, signals, memories
  and what they mean.
- `src/planning/dataflow` simplifies combinational and sequential values.
- `src/planning/fsm` finds state machines, merges their states and gives them new
  codes.
- `src/planning/memory` turns memories into registers or into cells of a library.
- `src/planning/operator` recognizes arithmetic, shares it and chooses how it is
  implemented.
- `src/planning/regional` cuts regions out of a design and plans each of them.
- `tests` runs the library on examples.
- `app` holds what is not verified: costs in floating point, records for files and
  the loop around the choice of candidates.

Hash tables come from `hashbrown`, digests from `blake3` and short rows from
`smallvec`. What the library expects of them stands beside the functions that call
them, in `src/collections.rs`, `src/digest.rs` and `src/planning/regional/row.rs`.
