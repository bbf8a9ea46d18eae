# ws_fanout

A WebSocket fan-out server: clients authenticate, subscribe to channels by name, and
receive every message published on those channels as JSON text frames, serialised once
per publish.

The library under `src/` is proved against its contracts. It holds every decision the server
makes:

- `protocol` — the wire messages and the exact text of every frame the server sends;
- `registry` — connections, their subscriptions, the per-channel index kept in step
  with them, and delivery into bounded per-connection queues with a streak of drops;
- `outbox` — a connection's queue, with the record of every frame handed to it, which
  only handing a frame to the queue can extend;
- `auth` — token validation (a fixed token, or HS256 JWTs) and per-channel
  authorisation;
- `snapshot` — snapshots sent after a subscribe;
- `server` — configuration, authentication of a new connection, what each client
  message does, and the per-event state machine of an authenticated session;
- `outcry_source` — draining an `outcry` shared-memory queue into the registry;
- `json`, `error` — JSON string literals and decimals, and the error type.

Properties that span calls (publishing hands one identical frame to the queue of
every subscriber and of nobody else, the
subscription limit, unsubscribe undoing subscribe, the streak counting drops since the
last delivery, and others) are public proof functions named `law_*` beside the
functions they speak of.

`app/` runs the library on tokio: the listener, the WebSocket handshake, the socket
reads and writes, the timers and the source thread. It calls the library for every
decision.
