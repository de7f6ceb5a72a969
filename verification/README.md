# hdrsample

HDR histograms with verified indexing and a verified V2 binary encoding.

- `src/bucketing.rs`: the slot layout as spec functions over the unit magnitude and the
  sub-bucket count magnitude, with lemmas on buckets, indices and equivalent values.
- `src/histogram.rs`: `Histogram<T>`, its view `HistogramView`, creation, recording and the
  statistics kept while recording.
- `src/counter.rs`: the `Counter` trait for the counters of the slots (`u8` to `u64`).
- `src/varint.rs`: ZigZag mapping and the 9-byte-limited LEB128 varint.
- `src/cursor.rs`: an in-memory byte reader.
- `src/serialization.rs`: the V2 encoding (`V2Serializer`, `encode_counts`), its decoding
  (`Deserializer`), and the round-trip lemmas.
- `app/lib.rs`: reading and writing encoded histograms through `std::io` streams.
