# telegram-relay

Forwards Telegram messages into Discord through webhooks, and keeps what it posted in step
with its source: reactions, comments, edits and deletions.

- `src/` is the library. Everything the relay decides stands there, with contracts that Verus
  proves: the configuration, routing, filters, albums, embeds, payloads, retries, which
  targets already have a post, the record of what was relayed, refreshing, backfilling.
- `app/` is the program around it: the command line, the connection to Telegram, requests to
  Discord, the SQLite file. It hands plain values to the library and does what it says.
- `tests/` run the library on concrete values.

The library calls `serde_json`, `chrono`, `lru`, `rand` and `base64`. What it takes for granted
of them is written above the small functions that make the calls; they are marked
`external_body`.

Points in time inside the library are numbers that the program hands in: seconds since the
epoch for the record, nanoseconds on a clock that never runs backwards for everything else.
