# ocel_core

A verified library for object-centric event logs in the OCEL 2.0 format, written in
Verus. It imports OCEL 2.0 JSON and XML (plain or gzip-compressed), keeps a compact
in-memory log with interned strings, and offers filtering, export, object lifecycles,
directly-follows graphs, state enrichment by a SQL-like state query, state patterns,
transition KPIs, time perspectives, state-detection bookkeeping and causal-model checks.
Every function in `src/` carries a contract that Verus proves.

Layout:

- `src/` — the library. `document.rs` is the entry point (`OcelDocumentCore`);
  `import.rs`, `xml.rs`, `decode.rs` and `timefmt.rs` read logs; `filter.rs` and
  `filtering.rs` filter them; `export_json.rs` and `export_xml.rs` write them;
  `state_query.rs` parses and evaluates state queries; `labels.rs` wraps graph
  labels; `laws.rs` holds properties
  that relate several operations.
- `tests/` — tests of the library on concrete logs.
- `app/` — a command-line program around the library: file I/O, JSON reading and
  writing with serde, and the floating-point analyses (PCA, self-organising maps,
  graph layout, average durations, state correlations, time buckets).

The state query language:

```sql
STATE state FOR LEADING OBJECT TYPE 'Order' AS CASE
  WHEN object.status IS NOT NULL THEN object.status
  WHEN event.type LIKE '%cancel%' THEN 'Exception'
  ELSE 'Normal'
END
```
