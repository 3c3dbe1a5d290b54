# vzglyd_kernel

The verified core of the VZGLYD kernel, written in Verus.

- `src/text_order.rs` — the order of text keys (byte order of UTF-8, as `str`
  orders) and a verified comparison.
- `src/string_map.rs` — `StrMap`, a finite text-to-text map kept as entries in
  ascending key order; its view is a `Map`, and the listing is a canonical form.
- `src/management/secrets.rs` — `SecretsStore`: sorted key listing, merge,
  and JSON conversion through `serde_json`.
- `src/management/library.rs`, `src/audio/mod.rs` — plain records.
- `src/trace.rs` — the trace recorder: thread ids, guest span ids and the
  append-only event log, with the state invariant and its laws proved.

`app/` holds what Verus does not check: serde forms of the records, and a
recorder shared between threads (`Arc<Mutex<_>>`) that records spans when
their guard is dropped and writes `trace.json` and `session.json`.
