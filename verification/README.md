# asmo

A service that publishes live Android device statistics over HTTP. This
crate holds its verified core; `app/` is the service around it.

- `src/types.rs` — battery status codes, monitor health and its byte
  encoding, the shared service counters.
- `src/text.rs` — whitespace, tokens, trimming, lines and decimal integers,
  each specified as Rust's `str` methods behave.
- `src/monitor.rs` — `/proc/stat`, `/proc/meminfo` and GPU-busy parsing, and
  the monitor loop's retry and scheduling decisions, with the proof that the
  tick count survives reconnects and counts every dispatched tick.
- `src/rish.rs` — reading the shell batch line by line.
- `src/discover.rs` — thermal-zone choice, core counting and the `lscpu` table.
- `src/json.rs`, `src/router.rs` — the JSON value tree and request resolution:
  fields, array items by name, comma-separated field lists, wildcards, and the
  endpoint index, with the proof that every listed endpoint resolves for
  trees whose objects hold each key once and whose keys and item names are
  non-empty, free of `/` and `,`, not `*` or `all`, with item names distinct
  within each array; that answers of such trees again hold each key once;
  and that `*` and `all` give the same answer at any depth of a path.
- `app/` — HTTP server, shell session, file reads, floating-point conversion.
