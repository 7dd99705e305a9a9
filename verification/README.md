# rust_multipart

A Sans-IO parser and a builder for RFC 7578 `multipart/form-data`, written in Verus: the
library's behaviour is stated in `requires`/`ensures` contracts and proved.

## Layout

- `src/multipart.rs`: the streaming parser. `feed` buffers a chunk and steps the state machine
  (preamble, headers, body, end) as far as the input allows; `next_event` and `next_part` take the
  events and the completed parts, and `finish` tells whether the closing delimiter was read.
  `set_header_limits` bounds the header lines of a part. By default body data is only reported
  by events and the parts carry none; `set_part_assembly(true)` collects it into the parts. The state machine is specified in `ParserView` terms by
  `step`, `run` and `feed_spec`; the proof functions `lemma_step_wf`, `lemma_feed` and
  `lemma_end_is_final` state what every feed keeps.
- `src/builder.rs`: the builder, with WHATWG escaping of names and file names, the streaming
  renderers (`render_part`, `render_field`, `render_file`, `closing`) and random boundaries.
- `src/round_trip.rs`: the proof that the parser reads back the body that the builder writes,
  and that the builder's media type parses back to its boundary (`lemma_content_type_round_trip`).
- `src/chunking.rs`: the proof that how the input is split into chunks changes only how body
  data is cut into events (`lemma_feed_chunks`), and that between feeds the parser holds at most
  a delimiter line or a header line of the input (`lemma_feed_settled`), and that a feed ends
  the message only by reading `--boundary--` at a line start (`lemma_feed_closes`).
- `src/fields.rs`: the proof that fields written by the builder are read back as the same fields
  (`lemma_fields_round_trip`).
- `src/messages.rs`: the proof that any well-formed message (a preamble, parts of header lines
  and data, the closing delimiter, an epilogue) is read as written, at once or in chunks
  (`lemma_parser_reads_message`, `lemma_parser_reads_message_in_chunks`).
- `src/headers.rs`: `parse_options_header`, for values such as `form-data; name="user"`, with
  the proofs that whitespace at the ends, around `;` and around `=` does not change the result.
- `src/form_data.rs`: the form parts and how a part's headers describe one.
- `src/string_map.rs`, `src/text.rs`, `src/bytes.rs`: text maps, Unicode trimming, UTF-8
  decoding and byte searching used by the above.
- `app/lib.rs`: the Python extension module (pyo3), which wraps the parser, the builder and
  `parse_options_header`.
- `tests/`: tests of the parser, the builder and the header parser.

## Outside crates

- `memchr`: `memchr2`/`memchr3` validate builder headers (`assume_specification` in
  `src/builder.rs`).
- `getrandom`: `fill` provides the bytes of random boundaries (wrapper `fill_random`).
- `pyo3`: the Python bindings in `app/`.
