# webserv_core

The bounded HTTP/1.1 protocol core of the `webserv` static-file server for
EuryOS, verified with Verus.

- `src/request.rs` parses one request header block (`parse_request`) and states
  what it yields as a model over the input bytes (`spec_parse_request`).
- `src/response.rs` frames responses (`encode_response`, `encode_head_response`).
- `src/service.rs` holds the server's decisions that need no I/O: the answer to
  a refused request, the file a path names, its media type, and the sizes of
  network transfers.
- `src/scan.rs` and `src/text.rs` hold the byte scanning and text checks the
  parser is built from.
- `src/laws.rs` proves properties of every input: the bounds of accepted
  requests, that bytes after a header block are ignored, when input is
  incomplete or too large, case-insensitive header lookup, and how responses
  declare their length.
- `app/` is the EuryOS service binary: sockets, filesystem and grants through
  `eury-sdk`, with every parsing and framing decision taken by the library.
