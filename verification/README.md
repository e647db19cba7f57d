# fon

FON (Fast Object Notation): a human-readable key-value text format, one
record per line, with typed values (`key=t:value`), nested records, arrays
and Z85-encoded raw payloads.

The library is written in Verus. Its behaviour is stated as functions on
bytes and proved:

- `src/format.rs` states the wire format: how a record is written
  (`write_fields`) and how a line is read (`read_line`), including errors,
  and how a dump's text splits into lines (`text_lines`, `read_records`).
- `src/serialize.rs` writes records and dumps; each writer's contract gives
  the exact bytes.
- `src/deserialize/` reads lines and dumps; each reader's contract is the
  format's reading function, error messages included. Dumps are read in
  parallel chunks of whole lines (rayon). For valid UTF-8 the result is that
  of a sequential read; for text that is not, the error is "Invalid UTF-8 in
  input" or that of a line before the bad bytes, as the chunks fall.
- `src/raw_data.rs` packs and unpacks raw payloads (Z85) with proofs of the
  encoding's shape and of unpacking what was packed.
- `src/types.rs` holds values, records (`FonCollection`) and dumps
  (`FonDump`) with their models.
- `src/roundtrip.rs` proves that what is written reads back: a value
  (`lemma_read_written_value`), a record (`lemma_read_written_fields`) and a
  dump (`lemma_read_written_dump`).

Floating-point values are kept as their decimal text; `app/` converts them
from and to `f32`/`f64`, and reads and writes dump files.

```rust
use fon::types::{FonCollection, FonValue};
use fon::{serialize_to_string, deserialize_line, DeserializeOptions};

let mut c = FonCollection::new();
c.add("id".into(), FonValue::Int(42));
c.add("name".into(), FonValue::String("Test".into()));

let text = serialize_to_string(&c);
let back = deserialize_line(text.as_bytes(), &DeserializeOptions::default()).unwrap();
```
