# bench

The logic of a distributed STARK prover and of its benchmark, written in Rust and
proved with Verus. The library decides what is split, dispatched, folded, named,
hashed and reported; the binaries around it move bytes, spawn processes and run
circuits.

## Layout

- `src/conductor/`: the block queue, witness slices, chunk dispatch, the merge-tree
  fold, the proof store, and the message bus with its JSON and base64.
- `src/prover_node/`: the geometry of the reduction tree, workload plans, work
  descriptors, fold plans, the circuit registry, the dispatch loop, and reports.
- `src/coordinator.rs`: what the coordinator does with a completion event.
- `src/account_family_tree.rs`, `src/account_family_native.rs`: sparse Merkle trees,
  the harvest of sibling paths, and the leaves of the state trees.
- `src/empty_witness.rs`, `src/l6drive.rs`, `src/l5segment.rs`, `src/chunk_chain.rs`:
  empty blocks, the wrapper drive, segments of a chain, and chunked proving.
- `src/blob_encode.rs`, `src/kzg.rs`, `src/kzg_setup.rs`: the layout of a batch's blob,
  its commitment, the text of the trusted setup, and the opening of the polynomial.
- `src/prestate.rs`, `src/prestate_store.rs`: pre-state snapshots and their corpus.
- `src/events.rs`, `src/report.rs`: timestamps, process figures and reports.
- `src/text.rs`, `src/text_map.rs`, `src/big.rs`, `src/digest.rs`, `src/hash.rs`,
  `src/ordering.rs`, `src/clock.rs`: what the rest is built from.
- `app/`: files, processes, HTTP, threads and the command line.
- `tests/`: the library from outside.

## What is trusted

The circuits' hash functions, provers and merge functions are parameters: contracts
speak of whatever they return. Outside crates are called through small functions
whose contracts are taken as given: `num` for numbers of any size, `sha2` and `hex`
for digests, `c_kzg` for commitments, `flate2` for gzip, and `serde_json` for JSON
texts; of the standard library, the clock and the conversion of bytes to text.
