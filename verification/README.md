# protohackers

Servers for the Protohackers problems, with their protocol logic written in
Verus and proved against its specifications.

- `src/` is the verified library: byte codecs, line framing, parsers, the
  state machines of sessions and rooms, and the in-memory stores.
  - `chat` (budget chat), `kv` (unusual database), `mob` (Boguscoin
    rewriting), `means` (prices and means), `prime` (primality requests),
  - `speed` (speed-limit wire messages, camera and dispatcher records, client
    roles), `lrcp` (line reversal: packets, session steps, the reversal),
  - `cipher` (insecure sockets layer), `jobs` (job centre), `vcs` (file
    store), `pest` (pest control: messages, policies, conversations),
  - shared helpers: `buf` (byte buffers of the `bytes` crate), `endian`,
    `text`.
- `app/` runs the servers with tokio: sockets, timers, channels and JSON.
  `app <server> [--address A] [--port P]`.
- `tests/` exercises the library on concrete values.
