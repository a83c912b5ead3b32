# btclib

A small Bitcoin-like chain: blocks with proof of work, a UTXO set, a mempool with
fee-based replacement, a wallet that builds and signs payments, and a node that answers
its peers. The library is written in Verus. Its own logic in `src/` carries contracts
that Verus proves; the calls into outside crates (SHA-256 and hex, secp256k1 ECDSA from
`k256`, the clock from `chrono`, random identifiers from `uuid`) go through a few small
wrappers marked `#[verifier::external_body]`, whose contracts Verus believes without
proof. Each such wrapper says in its doc comment what it claims of the outside call.

## Layout

- `src/u256.rs` — 256-bit unsigned numbers (targets and hashes) as four 64-bit limbs.
- `src/sha256.rs` — hashes: SHA-256 of a byte string read as a big-endian number, printed
  as 64 lowercase hexadecimal digits with leading zeros (`Hash::to_hex`).
- `src/crypto.rs` — secp256k1 keys and ECDSA signatures over output hashes.
- `src/codec.rs`, `src/time.rs` — the byte encoding of hashed data, and timestamps.
- `src/types/` — transactions, blocks, the chain (`Blockchain`) and the mempool rules:
  block validation, retargeting, UTXO replay, admission with replacement by fee, expiry,
  fee ordering and block templates. `mempool.rs` also states the consistency of the
  mempool with its claims and proves that admission and eviction keep it.
- `src/utils/` — an insertion-ordered lookup table and the merkle root.
- `src/network.rs` — the messages and their framing on the wire.
- `src/node.rs` — how a node answers one message, as a step from state and message to
  new state and reaction; which peer addresses it tries to connect to.
- `src/wallet.rs` — key lookup, balance and coin selection for payments.
- `tests/` — tests on concrete values.
- `app/` — the programs around the library: node, wallet, miner and small tools; files,
  sockets, serialization and the clock live there.

Functions whose arguments could make a computation overflow come with a companion that
decides that condition (`add_block_checkable`, `mempool_checkable`, `retarget_checkable`,
`message_checkable`, `payment_fits`, `checked_balance`); the programs test it before
calling. `submit_block`, `submit_transaction` and `handle_message_checked` make that test
themselves and answer `None` where it fails.
