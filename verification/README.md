# muxrs

A bidirectional stream multiplexer whose protocol logic is verified with Verus.

- `src/header.rs` — the 10-byte frame header: big-endian id and length, flag and
  frame-type bytes, with encode/decode round-trip lemmas.
- `src/frame.rs` — a header with its payload and its wire form.
- `src/stream.rs` — one stream's state: received bytes, readiness, parked tasks;
  reading, writing and taking in frames.
- `src/session.rs` — the session's routing state: id allocation by side (server
  even, client odd), delivery of inbound frames, the opening handshake, accepting
  streams the peer opened.
- `app/` — the tokio/futures runtime that performs the I/O the library decides on.
- `tests/` — executable tests of the library.
