# neurograph

A node of NeuroGraph, a DAG ledger whose batches are finalized by a
reputation-weighted emergent consensus among nodes that gossip predictions and
transactions.

## Layout

- `src/` — the verified library (Verus). Transactions and their signing
  digests, the pool with its per-sender nonce bookkeeping, the ledger DAG and
  its tips, account balances and state roots, batch finalization with retries
  and eviction, the approval tally of a consensus round, snapshots, sharding,
  cross-shard receipts, conflict bookkeeping, the clock-skew checker, fee pool
  shares, proof of work, the wallet seed and the integer parts of the attack
  detectors. Calls into `sha2`, `ed25519-dalek`, `ring` (key generation) and
  `rand` go through the small trusted wrappers of `src/crypto.rs`.
- `tests/` — tests of the library.
- `app/` — the node program: command line, console, TCP gossip, files on disk,
  the serializable copies of the library's types, and everything computed with
  floating point (predictions, reputations, medians, distances, detectors'
  thresholds, rate limiting).
- Not included: a libp2p transport (the swarm event loop, its gossipsub
  handling and address conversion). Nodes here gossip over plain TCP; libp2p
  and its async runtime are not among this crate's dependencies.
