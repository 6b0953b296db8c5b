# llmtrim

The decisions of a loopback gateway that compresses what a coding agent sends to its model, and of
the exemptions from shortening tool output, written in Rust and proved with Verus.

- `src/` is the library. It does no I/O. Every function states in its contract what it returns.
  - `gateway`: the policy for one request: route, credentials, relayed headers, compression,
    destination, metrics.
  - `listener`: where the gateway may listen.
  - `socket`: the decisions of the server: request heads, answers, the upstream leg, accepting.
  - `upstream`: how the upstream client is set up, and what of an answer comes back.
  - `passthrough`, `glob`, `json`: which tool results ship as they are.
  - `laws`: what holds across the gateway's functions. The laws of globs, pointers and exemptions
    stand beside them.
  - `text`, `text_map`: what the others are written with.
- `app/` is the server and the HTTPS client around it.
- `tests/` runs the library.

What is trusted and not proved: `String::push`; `core::str::from_utf8`, with its error type; and in
`passthrough` one call of `serde_json`, with the name `parsed_texts` for what it reads. Each says
above it what is taken for granted.
