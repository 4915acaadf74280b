# exchange

A limit-order matching engine, verified with Verus.

- `src/order.rs` — sides, orders and trades (order ids are `uuid::Uuid` values carried through).
- `src/model.rs` — the mathematical model: a book side as a map from price to a FIFO queue,
  `fill_level` and `sweep` (price-time priority matching), `matched` for a whole book, and
  the lemmas about them.
- `src/levels.rs` — the two price-level maps: asks keyed by price, bids keyed by
  `Reverse(price)` so that the highest bid comes first.
- `src/book.rs` — `OrderBook` over those maps, with contracts stated over the model.
- `src/engine.rs` — matching as a free function that reports no trades.
- `src/exchange.rs` — one book per ticker; validation and routing of incoming orders.
- `src/event_types.rs` — client and server messages and reports.
- `src/laws.rs` — properties of matching proved for every book and order.
- `app/main.rs` — the program, logging to standard error, and the floating-point mid price.
