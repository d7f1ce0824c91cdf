# neon

A small HTTP/1.1 server library whose request parsing, header handling,
routing and response rendering are verified with Verus.

- `src/text.rs` — splitting text on a separator as `str::split` does,
  decimal numerals, `usize` parsing, and the byte/text conversions.
- `src/header.rs` — header fields: parsing header lines, rendering them as
  text, and the proof that rendered text parses back to the same fields.
- `src/request.rs` — the head of a request, and `RequestReader`, which
  decides read by read when a request (head and declared body) is complete.
- `src/response.rs` — responses and their bytes on the wire.
- `src/http.rs` — methods, routes, and the router that picks the first route
  matching a request.
- `app/` — the sockets and threads around the library (`Http`,
  `ResponseStream`), and a serde-enabled copy of `Headers`.

Handlers and middleware are type parameters of `Route` and `Router`; the
server in `app/` uses plain function pointers for them.
