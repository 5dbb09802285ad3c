# pktflow

Protocol dissection plugins and a stream aggregator that folds dissected packets
into a hierarchy of conversations, written in Rust and proved with Verus.

- `src/plugins/` reads one protocol's header per file; `plugins.rs` registers the
  default set, and `plugins/depths.rs` proves what holds of all of them.
- `src/flows/` is the aggregator. `state.rs` is its mathematical model, `store.rs`
  and `store/` are the code that is proved to compute it. The other files prove what
  the model keeps: the hierarchy (`tree`), the counts (`bounds`, `accounts`,
  `summing`), where streams stand (`placing`), when they leave (`freshness`,
  `closing`) and their handles with them (`handles`), what they retain (`records`,
  `rollup`), how fan-outs are condensed (`fanout`, `members`), what is known of
  unknown payloads (`gathering`), and what holds after any capture (`capture`).
- `src/bytes.rs`, `text.rs`, `der.rs`, `value.rs`, `identity.rs`, `layer.rs`,
  `packet.rs` and `engine.rs` are what both sides share.
- `src/small.rs` holds the lists that the `smallvec` crate stores.
- `app/` wires the aggregator to the system's clock types and to a callback.
- `tests/` runs all of it on concrete packets.
