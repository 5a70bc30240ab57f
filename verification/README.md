# vgstore

The storage core of an RDF store whose data is a variation graph, written in
Verus. The functions of `src/` carry contracts that Verus proves, except the
small wrappers marked `#[verifier::external_body]` that call `std`,
`siphasher`, `oxrdf`, `oxsdatatypes` and `rand`: their contracts state what
those crates document, and Verus takes them on trust.

The key-value backend is a sorted tree held in memory: `RocksDbStore` and
its alias `SledStore` keep the column families and key layout of a
persistent store, but nothing is written to disk, and a store opened with
`open` starts empty. There is no SPARQL query engine here.

- `src/` — the verified library: the term encoding (`numeric_encoder`,
  `term_encoder`, `term_decoder`, `binary_encoder`, `small_string`,
  `str_hash`, `endian`, `xsd`), the ordered key-value backend (`backend`),
  the quad stores (`store`, `memory`, `transaction`, `pattern`, `bulk`,
  `relabel`), the canonical forms behind the isomorphism test
  (`isomorphism`), the variation graph and its RDF view (`vg`, `text`,
  `storage_generator`), and small utilities (`utils`, `syntax`, `model`,
  `error`).
- `tests/` — tests of the library on concrete values.
- `app/` — ordinary Rust around the library: reading GFA files into a
  variation graph, and running bulk-load batches on threads.
