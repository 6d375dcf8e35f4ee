# lcms

A colour-management library in the style of Little CMS, written in Verus:
the integer and byte-level parts are verified against their contracts, and
a thin ordinary-Rust crate (`app/`) holds file I/O and floating-point
colour math.

## Layout

- `src/error.rs` – error codes and the error type.
- `src/sig.rs`, `src/type_sig.rs` – colour-space, class, platform and tag
  type signatures, with their four-byte codes.
- `src/md5.rs` – MD5, used for profile IDs.
- `src/intrp.rs` – 16-bit interpolation of tables of one to fifteen inputs.
- `src/pack.rs` – pixel format words and 8/16-bit conversions.
- `src/pcs.rs` – Lab encodings between ICC versions 2 and 4.
- `src/text.rs` – UTF-16 encoding and decoding.
- `src/named.rs` – multi-localized text (`Mlu`) and dictionaries (`Dict`).
- `src/cgats.rs` – CGATS / IT8 tables: model, parser and writer.
- `src/profile.rs` – ICC profiles in memory: header, tag directory, raw
  tags, links, reading from and saving to bytes, and what a profile
  implements (matrix-shaper, tables per intent).
- `src/tag_types.rs`, `src/tag_arrays.rs` – tag payloads: multi-localized
  text, dictionaries, ASCII text, CRD names, signatures, dates and integer
  arrays, data, colorant order and video signal.
- `src/lut.rs` – 8-bit and 16-bit lookup table payloads (`Lut`) and the
  grid-size computation.
- `src/lut_atob.rs`, `src/lut_v4_write.rs` – the version 4 lookup table
  payloads (device-to-PCS and PCS-to-device): reading and writing.
- `src/vcgt.rs` – the video card gamma payload.
- `src/named_color.rs`, `src/pseq.rs` – named colour lists and profile
  sequence descriptions.
- `src/tag_data.rs` – a tag's data of any written kind, the choice of the
  type it is stored as, and typed writes into a profile.
- `src/tag_read.rs` – reading a tag's data by its type, from a payload or
  from a profile. Types whose values are floating point (XYZ, fixed-point
  arrays, curves, measurement and viewing conditions, chromaticity and the
  like) come back as their raw payload.
- `src/virt.rs` – text tags of built-in profiles.
- `src/*_laws.rs` – proofs that what is written reads back, and of what
  an edit changes and leaves alone.
- `tests/` – tests of the library.
- `app/` – file I/O and floating-point colour conversions around the
  library.

## Not here

Tone curves as functions (evaluation, inversion, building from formulas),
pipelines and their stages, the CIECAM02 model, PostScript generation and
the pixel formatters are in neither `src/` nor `app/`: curves and lookup
tables are kept as the plain values their payloads store (`Curve`, `Lut`,
`LutAtoB`, `Vcgt`), and nothing here evaluates them beyond the table
interpolation of `intrp.rs`.
