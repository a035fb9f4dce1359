# crabdb

A small key-value database served over TCP, one command per line:
`SET <key> <value>`, `GET <key>`, `DELETE <key>`. Every change is appended
to a write-ahead log of checksummed records before it is applied, and the
log is replayed when the database opens; past 16 MiB the log is rewritten
to hold only the current state.

Layout:

- `src/` — the library, verified with Verus:
  - `command.rs`: the line parser and the texts of its errors;
  - `wal.rs`: the log record format, its reader and writers, and the laws
    that a log reads back what was written and that a record cut short at
    its end is ignored;
  - `db.rs`: the key-value state, what each command decides, and the laws
    that the log follows the state and that a compacted log rebuilds it.
- `app/` — the server: the log file, the TCP loop and `main`.
- `tests/` — tests of the library.
