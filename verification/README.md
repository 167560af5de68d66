# vxb_wallet

The verified core of a light wallet for the Neptune Cash network.

`src/` holds the wallet's decisions, each with a contract proved by Verus:

- `selection`: input-selection rules (stable sorts by amount or height, or a
  random permutation) and greedy input selection with time locks.
- `recovery`: deduplication and filtering of imported UTXO recovery data.
- `import`: verdicts on the node's membership proofs during an import.
- `keys`: derivation indices per key type, the keys known and watched, the
  bumping of indices after a scan, and the scan for the highest used key.
- `key_cache`: a cache of derived keys in a concurrent map.
- `spend`: change, notification media, expected UTXOs and lustration.
- `sync`: the block-synchronisation state machine and premine detection.
- `block`, `rpc`, `commands`: AOCL indices, block ranges, broadcast errors,
  password checks, cache listing and mnemonic splitting.

Hashing, key derivation, the node's RPC and the wallet database are not part
of this crate, and no caller that runs the wallet's steps in order (applying
a block, importing recovery data, sending) is included: each decision takes
the plain values that such a caller would obtain from those services.

`app/` holds serialisable copies of the records, error types with
`Display`, and the asynchronous task that drives synchronisation.
