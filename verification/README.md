# confix_rs

A lenient byte-span document index for JSON, canonical CBOR and YAML, the `Item`
metamodel with its canonical CBOR codec, a SAX/JAX view of an index, and a typedef
IS-A lattice, written in Verus: every function in `src/` carries a contract and is
proved against it.

## Layout

- `src/confix.rs` and `src/confix/`: the scanners (`json_scan`, `cbor_scan`,
  `yaml_scan`, `yaml_text`), flat geometry and the token tree (`tree`), the index with
  its memoized key and structural-id facets (`index`), navigation by key/index paths
  (`nav`), payload decoding and reification (`decode`), and SHA-256 content ids (`sha`).
- `src/item.rs` and `src/item/`: the `Item` model and its equality, the canonical
  encoder and the decoder (`codec`), the canonical form and the codec's laws (`canon`),
  the `Debug` text that names a map key that is not text (`debug`), and JSON text
  (`json`).
- `src/cbor_cursor.rs`, `src/json_cursor.rs`: path navigation over decoded items and
  parsed JSON values.
- `src/saxjax.rs`: SAX events and structural elements over an index.
- `src/typedef_oracle.rs` and `src/typedef_oracle/`: typedef collection and the IS-A
  lattice.
- `src/text.rs`: the few `std` string operations the library relies on, with their
  contracts.
- `app/`: what the library leaves to callers: formatting floats as text and parsing
  JSON text with serde_json.

The laws are public proof functions, among them `item::canon::lemma_decode_encode`,
`lemma_decode_encode_eq` and `lemma_encode_entry_order`,
`typedef_oracle::lemma_is_a_transitive` and `lemma_is_a_reachable`,
`confix::index::lemma_json_indexable`, `lemma_json_flat_well_formed` and
`lemma_structural_ids_hash_tree`, and `confix::nav::lemma_get_at_concat`.
