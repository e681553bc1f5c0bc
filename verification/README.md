# lemmalog (verified core)

The verified half of lemmalog's semantic side index and of its benchmark
bridge, written in Verus.

- `src/hashing.rs`: FNV-1a, the bucket function of the hashing-trick embedder.
- `src/text.rs`: character classes, case folding, and splitting text into
  tokens, words and separator-delimited pieces.
- `src/number.rs`: decimal integers, parsed as `str::parse` does and written
  as `to_string` does.
- `src/json.rs`: JSON documents as plain values, parsed and written through
  `serde_json`.
- `src/semantics.rs`: `HashEmbedder` token counts per bucket, and
  `EntityTable`, the registry of entity profiles.
- `src/bench.rs`: session dates as monotonic minutes, session keys and
  transcripts, the sessions of a conversation document, the dates sidecar,
  date-ordering rules, and the dated edge history appended to a retrieved
  context.
- `app/`: the `lemmalog-bench` program, the floating-point half of the
  semantic index (normalization, cosine, top-k search) and the calls into
  the memory engine.
