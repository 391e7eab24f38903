# highres

The verified core of a market-data replay and order-record toolkit, written
in Verus. Every function in `src/` carries a contract that Verus proves.

## Layout

- `src/text.rs`, `src/decimal.rs`: character-level string operations and
  decimal formatting and parsing, each with a model over `Seq<char>` or
  `Seq<u8>`.
- `src/symbols.rs`: symbol conversion between the standard form (`eth_usdt`)
  and each venue's form, with the round-trip law.
- `src/ipc.rs`: socket endpoints and paths of the market feeds and record
  publishers.
- `src/records.rs`: keys of stored order and position records (they sort by
  time, then by arrival), key parsing, export requests and their progress.
- `src/recv_stats.rs`: the recorder's per-symbol counters and summaries.
- `src/buckets.rs`, `src/factor.rs`: the keyed time buckets and the state of
  the profit-per-unit factor (which periods close, which open and closing
  records are matched, expired or dropped).
- `src/stream.rs`: decisions of the streaming processes (single-symbol
  admission, binary feed frames, CSV runs, warm-up and replay ranges,
  settings resolution).
- `src/rolling.rs`: settings of the rolling-threshold runtime, redis keys per
  deployment profile, windows, symbol overrides and reload decisions.
- `src/book.rs`, `src/queue.rs`: the order book of a venue (snapshots,
  incremental rows, crossed levels, best prices) and the queues of own orders
  by price level, with their counts by signal and by duplicate key. Prices are held by order keys and amounts by their IEEE-754
  bits.
- `src/clock.rs`: the wall clock.
- `tests/`: tests of the library on concrete values.
- `app/`: the processes around the library (I/O, sockets, storage, redis,
  and the floating-point arithmetic of queue positions, fills, factor sums
  and quantiles).
