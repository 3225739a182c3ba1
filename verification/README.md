# clob_engine

A deterministic, event-driven continuous limit order book, verified with Verus.

Input events (new order, cancel, modify) are applied to the engine state; every
aggressor order (market, or limit that crosses on arrival) is then matched
against the other side in price-time priority. Limit orders carry a
time-in-force: GTC rests its remainder, IOC cancels it, FOK fills completely or
is rejected.

Prices and quantities are integers in units of 10^-8 (`units::UNIT_SCALE`);
`units` converts from and to `rust_decimal::Decimal`.

Layout of `src/`:

- `types`: sides, orders, trades, events, snapshot records.
- `book`, `book_ops`: price levels (best price first) and their operations.
- `state`: the engine state, its mathematical model and its invariant.
- `liquidity`: marketability and fill-or-kill liquidity.
- `apply`: input events; `matching`: the matching loop; `engine`: both in turn.
- `market_data`: aggregated and order-by-order snapshots.
- `invariants`, `crossing`, `resting`, `laws`: proofs that the invariant
  holds, that the book never crosses, that resting orders keep quantity left,
  and the engine's laws (fill-or-kill, immediate-or-cancel, good-till-canceled,
  priority, conservation, terminal events, at most one trade per resting
  order, add-then-remove round trip).
- `units`: fixed-point conversions, with the decimal round trip.

`app/main.rs` is a throughput run of one million orders.
