# propaq

Heisenberg-picture propagation of sums of Pauli or Majorana strings, verified with Verus.

A circuit is run backwards over an operator. The operator is a sum of strings with coefficients;
each rotation leaves the strings that commute with its generator alone and splits the others into
a cosine and a sine branch. Sums grow quickly, so they are merged, truncated and damped on the way.

## Layout

- `src/` is the verified library.
  - Strings and words: `bits`, `strings`, `bitset`, `sums`.
  - Algebras: `basis` (the interface), `pauli`, `plane_pauli`, `group` (what follows from the laws of products).
  - Coefficients: `coeff`.
  - Clifford conjugations: `conjugation`, `tableau`, `weights` (which conjugations keep
    the weight), `clifford_frame`.
  - Rotations: `emit` (one term), `gate` (a sum), `termsum` (a store of terms), `exchange` and
    `partitioned_termsum` (a store split into partitions), `timing`.
  - Storage: `slots`, `operator_index`, `inverted_index`.
  - Columns of terms: `sparse`, `store`, `kernels`, `clifford_ops`, `soa_propagator`.
  - Policies and runs: `truncators`, `term_kernel`, `plugins`, `noise`, `run_config`.
  - Files: `traits`, `term_io`.
- `app/` is the Python extension around it: classes, plugin loading, files and the run loop.
- `tests/` runs the library.

The library works rows and partitions off one after another. That the number of partitions leaves
no trace in the outcome is proved, so how they are dealt out is the caller's choice.

## Numbers

Coefficients and the real scalars they are scaled by are abstract in the library: `CoeffRepr`
names what its operations return, and contracts are stated over those names. So is the tolerance
within which a rotation counts as a Clifford one. The extension provides double and single
precision.

## Trust

What the library takes on faith stands next to the calls: the population count, the capacity
of a vector and the clock from std, hashing from `rustc-hash`, the merge tables from `hashbrown`, short word
runs from `smallvec`, and compression from `flate2`.
