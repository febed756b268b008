# multra

A reader for `multipart/form-data` bodies whose framing, header and
size-limit logic is verified with Verus.

- `src/buffer.rs`: the buffer that the body is read through; recognising
  boundary lines, handing out field data, counting the stream against its
  limit.
- `src/constants.rs`: the `Content-Disposition` parameters `name` and
  `filename` (quoted, unquoted, percent-encoded and RFC 5987 extended
  values).
- `src/lib.rs`: boundary syntax and reading the boundary out of a
  `Content-Type` header.
- `src/size_limit.rs`: size limits for the stream, each field and named
  fields.
- `src/error.rs`: the error type and its equality.
- `src/outside.rs`: every call into `bytes`, `memchr`, `encoding_rs`, `mime`
  and the parts of `std` without a Verus specification, each with the
  contract it is trusted to meet.
- `app/`: polling the asynchronous byte stream, and the error type with
  `Display` and `std::error::Error`.
