# semaphore

A length-prefixed binary message protocol with a small key-value server on top.

- `src/wire.rs` — big-endian length fields, as spec functions and the verified code that writes and reads them.
- `src/frame.rs` — frames (`[len:4][payload]`) and the streaming `Decoder`, specified byte by byte by `step` / `feed`, with the laws of the decoder (splitting the input anywhere gives the same frames, frames round-trip, oversize prefixes are rejected).
- `src/protocol.rs` — the typed messages, their encoding and decoding, and the round-trip laws.
- `src/text.rs` — numbers written out in decimal and hexadecimal, for the error messages.
- `src/net.rs` — what the server and client decide: turning read chunks into a message (with the law that any split of a message's bytes into reads gives it back), answering a message from the store, interpreting replies.
- `app/` — the command line, sockets and threads.
