# exchange

A small perpetuals exchange: a matching engine that keeps one order book per
symbol, and an HTTP/WebSocket server for accounts, balances and orders.

The library in `src/` is verified with Verus:

- `order_book` — the order book of one market: limit orders that rest, or
  fill level after level against the other side while they meet it and rest
  what is left, market orders that sweep levels,
  modify, close and close-all. Every operation is specified against an
  abstract `MarketView` and keeps the book well formed (levels strictly
  ordered best first, none empty, no lookup recording an order that has
  left the book). The laws of the book (quantity is
  conserved by a fill, orders used up by a fill are forgotten, the book, lookups and
  user lists stay in agreement under every operation given a fresh id or a
  close that names its order truly, a resting
  order faces no level it meets, closing right after a resting order restores the
  market, closing all orders of a user does not depend on the order the ids
  are taken in, ...) are public proof functions there.
- `engine` — routes each event to the market of its symbol.
- `mock_order` — the seeded book and order flow used for demonstrations.
- `id_map`, `num_map` — association lists keyed by text and by number.
- `text` — trimming, splitting and decimal numbers, as `str` does them.
- `middlewares`, `handlers` — where a session token is found in a request,
  which reply answers which outcome of a request, and the registry of
  WebSocket sessions.
- `query` — turning ids and database rows into the library's values.
- `clock` — the current time, read from the system clock.

Amounts are whole numbers of 10^-8 units (`order_book::UNIT`).

`app/` holds the two programs around the library (`app engine` runs the
matching engine on NATS; without an argument the HTTP server runs): I/O,
serde and protobuf copies of the library's types, database queries, and the
conversions between floating point and units.
