# shivya_core

Verified core of the Shivya edge substrate, written in Verus.

- `src/protocol.rs` — the UDP wire format (PING/PONG, THERMO_PUSH,
  GRAD_DIFF and the Kademlia FIND_NODE / FOUND_NODES / STORE / FIND_VALUE /
  FOUND_VALUE frames). `Frame::parse` and `Frame::serialize` are specified
  byte for byte, with every error message; the round trip
  (`lemma_parse_of_encoding`) is proved.
- `src/dht.rs` — the node-local DHT value cache and the partition blocklist.
  Both are vectors with a no-duplicates invariant rather than `HashMap` /
  `HashSet`: their keys are 20-byte arrays and socket addresses, and vstd's
  hash-map specifications prove nothing for keys other than integers.
- `src/node.rs` — what a node does with each inbound frame (`on_frame`),
  how outbound frames are prepared, and the laws that tie them together.
- `src/sparse.rs` — the sparsity structure of the Hodge operators
  (insert, lookup, transpose); values are `f64` bit patterns.
- `src/signature.rs` — the hex fingerprint of the working-memory words.
- `app/` — the tokio UDP transport, sysinfo telemetry, the `f64` products
  and conjugate-gradient solver, and the serde status report.
- `tests/` — scenario tests of the library.
