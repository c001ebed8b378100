# peat

Agent memory as a fold: sessions are captured into a ledger of events, and
every readable surface (the session-start brief, the zoom into a window of
time, recall, the claims register) is computed from it.

`src/` is the library, written in Verus and verified:

- `civil` — day buckets and the proleptic Gregorian calendar, with both round trips
- `text` — character-level helpers: decimal rendering, padding, whitespace, ordering
- `event` — the ledger schema, byte-capped stored text
- `transcript` — transcript lines to events, timestamps, trimming, the local zone offset
- `pipeline` — the fold steps (day digests, subjects, sessions, text rows) and their laws
- `store` — the keyed containers the ladder reads: per-day rows, per-file counts
- `window` — the grammar of places in time, and the laws that every handle reads back as its own window
- `ladder` — digests, the temporal ladder of bands, a window's children
- `brief`, `zoom`, `reads` — what the verbs show, as positions in the tables they read
- `ledger` — where the ledger lives, which session a command speaks for, the lock-wait policy
- `cli`, `ui` — argument decisions and terminal styling

`tests/` exercises the library on concrete values. `app/` is the command
line around it: arguments, files, the environment, the clock, JSON decoding,
template rendering and progress display.
