# furze

A finite state transducer that maps byte-string keys to `u64` values. Keys are
added in increasing order to a `Builder`, which writes the transducer's nodes to
a byte buffer as soon as they can no longer change; `FST` looks keys up in those
bytes and iterates over them in key order.

Layout:

- `src/state.rs`, `src/builder.rs`: the nodes still being built and the builder.
- `src/format.rs`, `src/encoder.rs`, `src/codec.rs`: the byte format of nodes and
  arcs, and its writer (`codec.rs` holds the calls into `varintrs` and
  `byteorder`).
- `src/reading.rs`, `src/decoder.rs`, `src/fst.rs`: reading the bytes back
  (lookup and iteration).
- `src/laws.rs`: what the library guarantees. Building only ever appends
  bytes. For a transducer built from non-empty keys in strictly increasing byte
  order (a key may be a prefix of later ones): every key is read back with its
  value, every other byte string is answered not found or greater, and, for
  keys without the byte 255, iteration yields the keys in order with their
  values (a key that is a prefix of later ones comes before them).
- The proofs behind them: `node_laws.rs` and `walk_laws.rs` (reading a written
  node), `build_laws.rs` and `build_step.rs` (lookups through the builder's
  stack), `trie_laws.rs` and `trie_step.rs` (the nodes written and the key
  prefixes they stand for), `iter_laws.rs` and `iter_steps.rs` (iteration).
- `app/`: the error type with its messages and conversions.
