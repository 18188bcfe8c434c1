# pow5_chip

A Poseidon chip for `halo2_proofs`, verified with Verus.

The chip lays out the Poseidon permutation over the base field of the Pallas curve, with the fifth
power as its S-box: one full round, or two partial rounds, to a row. On top of the permutation it has
the instructions of a sponge.

What is proved, besides the contract of every function:

- where the region asks for every advice value, the chip computes the permutation, and absorbing adds
  the input to the state and leaves the capacity element alone (`src/laws.rs`);
- the gates hold on a row of a full round, or of two partial rounds, exactly where the row holds what
  these rounds compute (`src/rows.rs`). Of the inverse of the mixing matrix only one direction is
  asked: a left inverse is an inverse (`src/linear.rs`);
- the gates and the ties hold only if the words that the chip returns are the image of the words
  handed to it, whatever is put into the advice cells, and absorbing is forced in the same way;
- the instructions of a sponge, one after the other, give the hash of what was absorbed, both where
  the regions ask for every advice value and whatever is put into the advice cells (`src/hash.rs`);
- given that the order of the field is prime, the permutation takes different states to different
  states (`src/injectivity.rs`);
- a table that holds what the chip asked for satisfies every gate, and with distinct columns there
  is such a table (`src/witness.rs`).

`src/op_conversion.rs` stands apart from the chip: it holds the integer conversions of WebAssembly
and a small evaluator for straight-line code made of them. It is about the values that come out.
Nothing is shown here of a circuit that proves such an execution.

`src/` is the library. The items marked `#[verifier::external_body]` there are believed, not proved:
they call `halo2_proofs`, and the comment above each says what is claimed of the call. `tests/` runs
the library with a mock prover. `app/` gives the chip to a layouter, which is a trait of
`halo2_proofs`.
