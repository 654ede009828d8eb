# btclib

A small bitcoin-like blockchain library whose logic is verified with Verus.

- `src/u256.rs` — 256-bit unsigned integers (comparison, small division and multiplication,
  decimal printing and parsing).
- `src/sha256.rs`, `src/crypto.rs` — hashes (SHA-256 via `sha2`) and secp256k1 signature
  checks (via `k256`/`ecdsa`), behind small trusted wrappers.
- `src/types.rs` — transactions, blocks, the byte encoding hashes are taken over, the checks a
  block's transactions must pass, and the plain chain without mempool.
- `src/types/blockchain.rs` — the blockchain with its UTXO set, difficulty target (adjusted
  through `bigdecimal`) and fee-ordered mempool.
- `src/utxo.rs` — the set of unspent outputs; `src/util.rs` — Merkle roots;
  `src/network.rs` — protocol messages and their framing; `src/node.rs` — what a node does
  with each message from a peer, and choosing the peer with the longest chain;
  `src/time.rs` — timestamps.
- `app/` — the node program: sockets, files, CBOR encoding of messages, and the tasks that
  drive the library and carry out the actions it chooses.
