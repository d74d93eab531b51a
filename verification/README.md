# shrewd

A verified packing engine for `i64` vectors. `Shrewd::pack_with_estimate` routes a vector to
one of three layouts and every layout reads back exactly the values it was given:

* `SizeCompressor` stores each value in the narrowest signed width (`i8`..`i64`) that holds
  all of them.
* `OffsetCompressor` stores each value as its offset from the midpoint of the value range, in
  the narrowest signed width that holds every offset.
* `DictionaryCompressor` stores indices into a table of the distinct values.

Layout:

* `src/shrewd/sizes.rs` — element and index widths, and the integer part of the HyperLogLog
  sketch (hashing and register updates).
* `src/shrewd/codec.rs` — little-endian encoding of values and indices, with round-trip proofs.
* `src/shrewd/compressors.rs` — the three layouts, the router, and the laws that tie them
  together (offset round trip, width choice, routing).
* `src/shrewd/mod.rs` — the `Compressor` trait.
* `app/lib.rs` — the floating-point HyperLogLog estimate and `pack`, which sketches a vector,
  estimates its distinct values and routes on that estimate.
