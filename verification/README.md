# yaiko

Building blocks for a media-editing web platform, written in Verus: byte-range delivery,
signed webhooks and cursors, media graphs and ffmpeg command lines, project stores with
optimistic revisions, quotas, locks, role checks, routing, security headers, rate limits,
circuit breaking, schema migrations and more. Each public function states what it returns
in its `ensures`, and Verus proves the code against it.

## Layout

- `src/` — the verified library, one module per concern. `text.rs` and `time.rs` hold the
  string and duration helpers the others are stated over; `crypto.rs` and `json.rs` hold the
  calls into `sha2`, `hmac`, `base64` and `serde_json`, each with the contract it is trusted
  with.
- `tests/` — tests of the library, one file per module.
- `app/` — the parts that cannot be verified: the hyper server, the async middleware and
  handlers, SQLite persistence, the file system, Prometheus export, serde copies of the
  library's types, and the arithmetic done in floating point. Every decision they act on is
  taken by a library function.

Shared, mutable stores are plain values in the library; where several tasks use one, `app/`
holds it behind a lock.
