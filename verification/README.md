# ibsl

An Interval Based Skip List (IBSL): an authenticated set of `u64` keys whose
every node commits, with a pluggable vector commitment, to the vector of its
children's commitments. A membership proof for a key is one opening per
level, from the root commitment (sigma) down to the key's leaf.

The library is written in Verus. Its contracts state the set semantics of
every operation (search, insert, delete, build), the completeness of every
proof mode (a proof handed out for a member is accepted against the root),
and that each operation keeps the structure well formed (level order, child
runs, pointer discipline, commitments, fan-out bound).

## Layout

- `src/ibsl.rs`: the skip list, its model (levels as sequences of node ids,
  child runs as boundaries), build, search, insert, proofs in commitment
  mode and in Merkle mode; `src/ibsl/delete.rs`: delete;
  `src/ibsl/agg.rs`: aggregated proofs for backends that batch openings;
  `src/ibsl/capacity.rs`: run-time checks of the fan-out room an update
  needs; `src/ibsl/room.rs`: the room small sets always leave;
  `src/ibsl/shape.rs`: what membership proofs look like and how the proof
  modes line up; `src/ibsl/fit.rs`: when a build fits the fan-out bound;
  `src/ibsl/plan.rs`: the build as a function of the sorted keys, the seed
  and the threshold;
  `src/ibsl/laws.rs`: how updates and searches relate across calls.
- `src/vc/`: the vector-commitment interface and its backends: a binary
  Merkle tree (`merkle.rs`, over SHA-256, BLAKE3 or Poseidon), a flat hash
  (`flat_hash.rs`, over Poseidon2), and the plain-value parts of the
  Greyhound backend (`greyhound.rs`).
- `src/hashes/`: the tree hashes; `src/field.rs`: the slot types
  (BLS12-381 scalars as canonical bytes); `src/m31.rs`: Mersenne-31.
- `src/stark/`: the flattened membership chain a Stwo STARK proves, its
  permutation witness, the main trace rows, and the prover configuration;
  `cycles.rs`: the cycle plan of the Rescue membership trace.
- `src/merkle_list.rs`: the baseline, one Merkle tree over the sorted keys.
- `app/main.rs`: a command-line demo and benchmark.

Outside crates: `sha2`, `blake3`, and arkworks (`ark-ff`, `ark-bls12-381`,
`ark-serialize`, `ark-crypto-primitives`) are called through small trusted
wrappers whose contracts name their results.
