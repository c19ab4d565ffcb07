# tokio-websockets

A strict WebSocket (RFC 6455) implementation whose protocol logic is proved
correct with Verus.

## Layout

- `src/` is the verified library:
  - `mask`: frame (un)masking, in one piece or in several.
  - `utf8`: whole-slice UTF-8 parsing and the streaming validator for text
    payloads.
  - `proto`: frame headers, the frame decoder (`codec`), the queue of encoded
    frames (`queue`) and the connection logic (`stream`): the close
    handshake, answers to pings and protocol violations, fragmentation and
    message assembly.
  - `upgrade`, `client`, `server`, `sha`, `encoding`: the HTTP/1.1 opening
    handshake on both ends.
  - `extensions`: the `Sec-WebSocket-Extensions` grammar and the negotiation
    of `permessage-deflate` parameters.
- `app/` is the asynchronous I/O around it: the `WebSocketStream` (a
  `Stream` of messages and a `Sink` for them), the client and server
  builders, TLS through `tokio-rustls` and name resolution.
- `tests/` exercise the library on concrete values.

Calls into outside crates (SHA-1, base64, HTTP head parsing, UTF-8
validation, random numbers) go through small wrappers in `src/` whose
contracts are trusted; everything around them is verified.
