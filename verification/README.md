# zkboo

A verified implementation of the ZKBoo zero-knowledge proof system for boolean circuits over
fixed-width words, written in Verus.

- `src/word`, `src/memory`: word types, composite words, word stores, and the reference-counted
  slot allocation that backends keep their words in.
- `src/backend`: the `Backend` trait (the gates a circuit is built from), the `Frontend` and
  `WordRef` through which circuits run (with booleans held in `u8` words and multiplication
  by a constant, shifts, wide and wrapping multiplication, casts between word types,
  single-bit reads, zero tests, equalities and unsigned comparisons), and backend hooks.
- `src/circuit`: the `Circuit` trait and in-circuit assertions: `Assertions::scope` runs a body
  with an accumulator and always emits its flag as the next output word.
- `src/executor`: plain execution of a circuit.
- `src/crypto`: the hasher (Keccak-256 through `tiny-keccak`), the hash-based pseudo-random
  generator, and domain separation.
- `src/prover`: view building for the three simulated parties, challenge generation, and proofs
  made of responses.
- `src/verifying`: replay of the two opened views of each response, and verification.
- `app/`: parallel proving and verification with rayon, around the verified library.
- `tests/`: tests of the library on concrete inputs.

Every function in `src/` is verified against its `requires`/`ensures` contract; the only
trusted items are the Keccak-256 call and the capacity of a `Vec`.
