# lockfree_orderbook

A single-threaded order matching engine with price-time priority, written in
Verus. A sequencer numbers incoming events, the engine applies them to an order
book kept in two `BTreeMap`s of FIFO price levels, and an append-only journal
records every event and fill.

Layout:

- `src/order.rs`: orders, fills, events.
- `src/level.rs`: a price level (a `VecDeque` of orders) and its contracts.
- `src/matching.rs`: the mathematical model of the book and of matching.
- `src/book.rs`: the order book, verified against the model.
- `src/sequencer.rs`, `src/clock.rs`: sequence numbers and timestamps.
- `src/journal.rs`, `src/metrics.rs`: the journal and the metrics.
- `src/engine.rs`: the engine; its book is always the replay of its journal.
- `src/laws.rs`, `src/ids.rs`: properties proved of the model: price and time
  priority, conservation of quantity, a book that is never crossed and holds
  no empty level, unique order identifiers, market orders that fill completely
  or not at all.
- `app/`: the error type with its messages, decimal prices and text output.
