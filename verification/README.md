# may_minihttp

A coroutine HTTP/1.1 client whose request logic is verified with Verus.

- `src/` is the library. It reads and writes wire formats, keeps the accounts of a connection pool,
  and decides about retries, redirects, resolution and metadata. It touches no socket, lock or
  clock: received bytes, lookups and instants are handed in, and each step returns what has to be
  done next.
- `app/` runs it over `may` sockets and `rustls`, behind `may` mutexes and condition variables.
- `tests/` exercises the library with the real `bytes`, `http`, `httparse` and `url` crates.

| Where | What |
|---|---|
| `body/`, `buffer`, `sink`, `shared` | body framing, buffered bytes, the state of a connection |
| `headers`, `list`, `message`, `uri`, `url` | header fields, field lists, methods, addresses, origins |
| `request`, `response`, `multipart` | request heads and bodies, response heads, forms |
| `http_client`, `exchange`, `streaming` | one connection, one attempt, streamed responses |
| `pool`, `ledger`, `checkout`, `stats` | leases, their accounting, limits and counters |
| `builder`, `request_builder`, `policy`, `redirect`, `metadata`, `tls` | settings and policy |
| `resolver`, `table` | bounded address caches |
| `observer`, `error`, `classes`, `cancellation`, `time`, `text` | events, failures and primitives |

The outside crates are called through a few declarations without proof: the buffer of `bytes`, the
header map of `http`, and the parsers of `http`, `httparse` and `url`. Their doc comments say what
is claimed of each.
