# grossular

A key-value store built from a hash index over an append-only log, verified
with Verus.

- `address`: logical log addresses (47-bit offsets, 0 is the invalid sentinel).
- `bytes`: little-endian integer encoding and byte-string comparison.
- `hash`: the key hash.
- `record`: the record layout of the log (info word, data header word, key,
  value, padding) with its encoder and decoder; `record::info` and
  `record::data_header` describe the two header words.
- `plain_record`: a simpler record layout with explicit length fields.
- `log`: the append-only log of records. It writes the `record` layout, whose
  data header holds key lengths up to 1022 bytes and value lengths up to
  16 777 214 bytes; `Log::append` and `Store::upsert` take keys and values
  within those limits.
- `index`: the bucketed hash index with tags and overflow chains;
  `index::bucket` holds the bucket format.
- `slot_index`: a direct-mapped index with one head per bucket.
- `store`: the store; its view is a map from keys to values, and `upsert`
  and `get` are specified as insertion into and lookup in that map.

The tests under `tests/` exercise the compiled library on concrete values.
