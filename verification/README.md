# clob

A deterministic central limit order book for one instrument, with its contracts proved
by Verus.

Commands (new orders of five types, cancels, amendments) pass a gateway (structural checks
and optional pre-trade risk limits), take a sequence number, and are matched by price-time
priority with iceberg reserves, stop and stop-limit orders that cascade, self-trade
prevention and maker/taker fees. Market data (L2/L3 snapshots and increments, a trade tape)
is projected from the event stream. Commands can be written to a framed, checksummed journal
and the state to a snapshot; both formats are encoded and decoded here.

Layout:

- `src/` — the verified library. `book/` holds the order book and its abstract model
  (`model.rs`: one priority-ordered queue per side), `engine.rs` the matching engine,
  `clob.rs` the venue (gateway, sequencer, engine), `codec.rs`, `journal.rs`, `wal.rs` and
  `snapshot.rs` the byte formats, `checkpoint.rs` the proof that a snapshot restores a venue,
  `marketdata.rs`, `l3feed.rs` and `tape.rs` the market-data projections.
- `app/` — what touches the file system: the journal file, snapshot files and the
  `PersistentClob` that journals every command before it executes.
- `tests/` — integration tests.
