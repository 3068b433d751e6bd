# bloch_pos_node

The node-side logic of a proof-of-stake validator, written in Verus: every
function in `src/` carries a contract that Verus proves, but for the two
calls into the `sha3` crate in `digest`, whose contracts are trusted, and
the laws that tie functions together are proof functions beside them.

## Layout

- `src/` — the verified library.
  - `bytes`, `codec`, `text`, `digest`: little-endian framing, length-prefixed
    fields, decimal and hex text, and the SHA3/SHAKE digests (the one place
    the library calls the `sha3` crate).
  - `json`: the JSON value, its writer and its strict, depth-bounded parser;
    what is written reads back, and what is read is written so that it does.
  - `rpc`: the JSON-RPC surface: routing a method and its params to a
    request, the envelopes, the HTTP head, and the views of chain state
    (blocks, validators, balances, outputs, submissions).
  - `native_quote`: the laboratory builder's quote and withdrawal params.
  - `p2p`: directed block sync: the shared request window, the page-chase
    bound, whom a `get-blocks` goes to, the byte cap of an answer, the wire
    format.
  - `state_sync`: snapshot files, the chunked transfer, manifests and the
    resumable download.
  - `slashprot`, `signing_history`, `slashdb`: the three signing guards —
    watermarks, the interchange-capable history, and the append-only fence —
    each refusing any duty at or below what was already signed.
  - `slashing_cli`: the offline watermark command's arguments.
  - `store`, `native_snapshot`: the block log's framing, index and repair
    decisions, the data directory's identity, and the native sidecar record.
- `app/` — the I/O around the library: files and locks, the block log on
  disk, the HTTP server, the libp2p node, the offline command.
- `tests/` — the library's behaviour on concrete values.

## What is not here

The consensus crate that defines transactions, blocks and the committed
chain state is not part of this repository. So:

- `sendrawtransaction` routes any non-empty, well-formed hex to
  `RpcRequest::SendRawTransaction` with the raw bytes. Whether those bytes
  are a canonical transaction is not judged here, so the library never
  produces `TX_DECODE_FAILED` (`-32002`) itself; a node that decodes the
  bytes answers with that code when they are not a canonical transaction.
- Restoring a state-sync snapshot into the chain state is not here either:
  the library checks snapshot files, manifests and chunks, and stops at the
  verified artifact bytes.
- The views of chain state take the library's own plain records
  (`BlockFacts`, `ChainFacts`, `ValidatorRecord`, `Eutxo`) in place of the
  consensus types, and whether a native owner key is a valid hybrid key is
  the caller's verdict, passed in.
