# aiomsg

Smart sockets: any number of bound and connected addresses behind one socket, with
reconnection, buffering, heartbeats, round-robin, publish and by-identity sending, and
at-least-once delivery. Peers speak over TCP, TLS or WebSocket.

- `src/` is the library, verified with Verus: envelopes and framing (`protocol`, `frames`,
  `msgproto`), routing and delivery (`broker`, `peers`, `timers`, `socket`, `registry`),
  connections (`conn`, `polled`, `dial`, `outbox`, `tls`), and WebSocket (`ws`). What holds of
  the library as a whole is stated in `guarantees`, and at the end of the modules it is about.
- `tests/` runs it, with sockets connected in memory.
- `app/` holds the sockets themselves: threads, tasks, TCP, and the public socket types.

Items marked `external_body` or `assume_specification` state what is believed of the crates
`bytes`, `rustls` and `uuid` and of the standard library.
