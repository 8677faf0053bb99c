# trickydata

A client for the **trickydata** corpus — deliberately tricky test inputs
(edge-case Unicode, IEEE-754 floats, boundary integers, SQL, binary blobs) —
written in Verus: the selection, decoding, pairing, sizing and rendering logic
carries requires/ensures contracts that Verus proves.

## Layout

* `src/` — the verified library.
  * `decode_as`, `native`, `codec`, `float` — tokens, numeric and text decoding,
    text encoding, exact float widening and narrowing on bit patterns.
  * `artifact`, `corpus`, `links`, `path` — the `.trickydata` container
    (framing, MD5 checks, gzip inflation), building a corpus from its index,
    resolving `pair[]` declarations by normalised relative path.
  * `target` — the lossless promotion lattice (`Target` for every integer,
    `F16Bits`/`F32Bits`/`F64Bits`, `bool`, `String`, `Vec<u8>`).
  * `example`, `query`, `pairs`, `sizing`, `rng` — examples, queries and pair
    queries with their builders and terminals, string sizing, the seeded
    SplitMix64 draw.
  * `literals`, `static_data` — selections rendered as Rust literal source text.
  * `resolve` — serving a requested corpus version.
* `app/` — plain Rust around the library: reading artifacts from disk, parsing
  the index JSON (serde), temporary files, human-readable messages.
* `tests/` — behaviour tests against corpora built in memory.

Floats are carried as IEEE-754 bit patterns inside the library; `app/` turns
them into `f32`/`f64`.
