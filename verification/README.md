# Pierre

A log indexer in one process: ingest over Loki push, Elasticsearch `_bulk`, syslog, OTLP and a
framed protocol of its own; time-range reads, full-text search and aggregations from sketches
that are computed once.

- `src/` is the library. Every item states its contract and is proved with Verus: key
  encodings, wire formats, the LogQL subset, query parameters, rollups and their sketches,
  text-index windows, archiving and pruning, retention, and the rules of the agent tools.
  Properties that span functions are public proof functions whose names begin with `law_`.
- `tests/` runs the library on concrete values, with the crates that it calls linked.
- `app/` is the program around the library: `main`, sockets, the store, serialization, and the
  few computations on floating-point numbers.

The calls that the library makes into other crates (`jiff`, `rand`, `prost`, `snap`, `hex`,
`serde_json`, `hyperloglogplus`, `sketches-ddsketch`) and into parts of std without a
specification stand in small wrappers marked `external_body`. The comment above each says what
is believed of the call.
