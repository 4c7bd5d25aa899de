# elid

String similarity metrics and sortable identifiers for embedding vectors,
with the integer, byte and string logic verified by Verus.

- `src/` — the verified library.
  - `strings/`: Levenshtein, OSA and Hamming distances, the Jaro matching
    core and Jaro-Winkler prefix, text SimHash, preprocessing options.
  - `embeddings/`: sortable base32hex, identifier headers (`ProfileInfo`),
    profiles and their size rules, full vector payload layouts (Full32,
    Half16, Quant8, packed custom depths), identifier assembly and decoding,
    Mini128 Hamming distance, seed derivation.
  - `models/`: model errors, download URLs, and the integer checks of the
    text and image models.
  - `bits.rs`: bit counting and big-endian conversions.
- `tests/` — tests of the library.
- `app/` — what works on floating-point values or with the outside world:
  similarity scores, embedding normalization, random projections and
  quantization, the text and image models, and the C, WebAssembly and
  Python bindings.

`kstring` in `Cargo.toml` is not used by the code: `tract-onnx` pulls it in
through its build-time dependencies, and the line only holds it to a release
that this toolchain compiles (its later 2.0 releases need a newer Rust).
