# chainvisor_state

What a chain node needs to keep its state durable and to hand it on, as a
library of functions on plain values, each with its contract and its proof.

- `persistence_fence`, `persistence`: blocks of the engine are written only
  behind the durable watermark, on which every overlapping pipeline stage has to
  stand, and only as one chain that extends it.
- `chain`, `launch`, `error`, `sync_status`: the pipeline is scheduled only after
  the engine has acknowledged the handoff; what a node refuses to start with, how
  it shuts down, which heads a reader adopts, how a writer holds still for a
  snapshot, and when a node says that it is syncing.
- `shard`, `walk`, `sink`, `marker`, `export`, with the laws in `coverage` and
  `history`: the export of a state base. Every record in one sorted stream, once;
  parts, index and markers that can be taken up again after a crash.
- `snapshot`, `delta`, `emit`: one record per canonical block of what changed in
  it, and an emitter that never takes its node down.
- `barrier`: which pages a reader drops after the device was rewritten under it.
- `static_file`, `metrics`, `number`: the listing of static files, and the text
  format of metrics.
- `primitives`, `text`, `hash`, `json`: words, numbers and records, and how they
  are written.

Calls into other crates stand behind wrappers whose contracts are believed, not
proved; each says above itself which function it calls and what it claims of it.
`serde_json` reads the markers and prints markers and records,
`alloy_primitives` and `alloy_eips` hash and print words, `std` has the clock and
the channel of the persistence handle.

`app/` holds the programs: arguments, the object store, files, signals, threads
and the node's own crates. `tests/` runs the library.
