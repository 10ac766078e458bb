# clickhouse_arrow

ClickHouse types and values, and the native format in which columns of them travel,
written in Rust and verified with Verus. The library works on bytes in memory: it names
types and reads their names, writes values into columns and reads them back, turns rows
into documents, and takes JSON documents apart into paths.

## Layout

- `src/` is the verified library.
  - Types: `types`, `type_display`, `type_args`, `type_parse`, `type_encoding`,
    `type_order`. That a type is read back from its name: `name_scan`, `name_enums`,
    `name_words`, `name_laws`, `name_round_trip`, `name_paths`. That the types of
    values are told apart by their names: `guess_laws`.
  - Values: `values`, `guess`, `coerce`, `big_int`, `float_bits`, `value_text`,
    `value_display`, `json_value`, `ingest`.
  - Bytes: `wire`, `cells`, `sparse`, `low_cardinality`, `variant`, `columns`,
    `column_read`, `prefixes`, `binary_value`, `discriminators`, `dynamic`,
    `dynamic_read`, `state`, `held_columns`, `variant_columns`, `whole_columns`. That what
    was written is read back: `cell_laws`, `column_laws`, `mixed_laws`, `mixed_guesses`,
    `binary_laws`, `dynamic_laws`, `held_laws`.
  - Documents: `json_text`, `json_render`, `json_object`, `json_paths`, `json_columns`,
    `json_write`, `json_read`, `json_documents`, `sql_json`, with `json_laws` and
    `path_laws`. That documents come back from their leaves: `leaf_laws`, `order_laws`,
    `mixed_documents`, `mixed_blocks`, `return_laws`, `typed_laws`, `scalar_laws`,
    `array_laws`.
  - Trees of values: `node`, `typed_node`, `ser`, `de`, `serde_impls`.
  - Queries and versions: `query`, `version`.
- `tests/` runs the library.
- `app/` holds what is not verified: serde, asynchronous streams, texts with floating
  point in them, and the fixtures of tests against a server.

## Conventions

Numbers of floating point are held as their bits. Each type has a model over mathematical
sequences, its `view`, and contracts speak of the models. A function that writes appends
to a vector of bytes; one that reads takes what it has read off the front of a slice. An
error names the stage that failed and the reason, so that contracts can tell which error
comes back for which input.

Outside crates are called through small functions whose contracts are believed: `chrono`
and `chrono-tz` for dates and zones, `serde_json` for the text of documents, `regex` for
patterns of paths, `uuid` for identifiers.
