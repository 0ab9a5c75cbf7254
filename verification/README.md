# localsend_relay

The relay of LocalSend: devices that cannot reach each other directly join a
room on a relay backend, discover each other there, and exchange the bytes of
a session through it. The backend never interprets those bytes.

`src/` is the verified library:

- `frame` — the binary frames of session bytes (`[session id][payload]`), with
  both round-trip laws.
- `store` — the backend's directory of rooms and its session table.
- `controller` — the backend's decisions for each device event, and the
  messages they produce.
- `limit` — the per-address-group request limit.
- `ip` — address groups and the `x-forwarded-for` client address.
- `client` — the client's decisions for each backend message, its session
  bookkeeping, and the steps of a session's sender.
- `pipe` — the buffers of a session's byte stream, with backpressure and EOF,
  and the laws of a stream over any run of feeds and reads.
- `messages`, `ids`, `api` — message types, id text (written and read, in the
  forms a UUID text takes), and the app-facing forms.
- `assoc`, `pow` — association lists read as maps, and powers of 256 and 16.

`app/` runs the sockets, tasks and JSON around the library.
