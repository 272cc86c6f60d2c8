# geyser_services

The logic of three services around a stream of Solana account writes, verified with
Verus:

- `trackoor` publishes aggregated order books to websocket clients: a snapshot of every
  followed book when a client connects, then the changes of each write;
- the crank service turns writes of perp market event queues into instructions that
  consume the events;
- `connector-trace` logs the versions of one event queue.

## Layout

- `src/book.rs`: levels of a book and the delta between two books; `src/book_laws.rs`
  proves that quantities are kept and that deltas replay.
- `src/market.rs`: the accounts of the configured markets.
- `src/snapshots.rs`: the last snapshot of every account, and what a write does to it.
- `src/message.rs`, `src/json.rs`: the messages, what a serializer is told of them, and
  their JSON texts; `src/json_reader.rs` says how JSON is read, and
  `src/message_laws.rs` proves that every message reads back from its text.
- `src/peers.rs`, `src/connection.rs`: the connected clients, and the service of one
  client from its registration to its removal.
- `src/feed_laws.rs`, `src/delivery_laws.rs`: what clients can rely on over any number of
  writes, and however the writes interleave with a connection.
- `src/crank.rs`, `src/routes.rs`: when a queue is cranked, with which instruction, and
  which sink handles which account.
- `src/trace.rs`: the versions of an event queue.
- `src/pubkey.rs`, `src/table.rs`: public keys, and tables with one value for each key.
- `app/`: the services themselves: sockets, channels, the chain cache, and the decoding
  of account data. They use `solana_geyser_connector_lib`, `mango` and `mango_v4`, which
  no registry offers.

## What is trusted

Seven functions call outside crates and are not proved: base58 texts of keys and account
metas (`solana-sdk`), grouping by price (`itertools`), and the JSON texts of strings,
integers and lists of pairs (`serde_json`). Each says in its doc comment what is claimed
of the call.
