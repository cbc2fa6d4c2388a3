# matching_engine

The deterministic core of an exchange's order-entry path — wire codec,
pre-trade risk, a price-time priority limit order book and the single-writer
engine that turns commands into Ack / Fill / Reject events — written in Verus,
with every function of the library proved against its contract.

Layout:

- `src/types.rs` — prices, quantities, orders, trades, commands, events.
- `src/ladder.rs` — the mathematical model of one side of the book (a ladder
  of price levels, each a FIFO queue), the matching sweep as a spec function,
  and its laws: quantity conservation, limit prices respected, executions
  walking outward from the best price, the sweep stopping only at the limit.
- `src/index.rs` — which orders rest under which identity: how inserting,
  removing and filling keep every resting order indexed and identities
  distinct.
- `src/order_book.rs` — the book (sorted levels of `VecDeque`s and an
  identity index in a `HashMap`), with `add`, `cancel`, `submit`,
  `buy_match`, `sell_match`, best prices, and the book-level laws: the book
  never becomes crossed, a cancel undoes an add, every resting order stays
  indexed (and so cancelable) under rests of fresh identities, cancels and
  matching, resting quantity is
  conserved by matching and a cancel takes off exactly its order's quantity.
- `src/risk.rs` — the order-size check.
- `src/engine.rs` — `apply`, its model `apply_spec`, journal replay, and the
  proof that the engine's book is never crossed.
- `src/protocol.rs` — the binary encoding of commands and events, with
  round-trip proofs in both directions.
- `src/spsc.rs` — the bounded ring buffer between pipeline stages, proved
  FIFO over wrapping 64-bit counters.
- `app/lib.rs` — the threaded part: a queue shared under a lock, and the
  engine's run loop over channels.
- `tests/` — the scenario tests.
