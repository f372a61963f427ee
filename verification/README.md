# anand_redis

The core of a Redis-compatible TCP server, verified with Verus.

- `src/resp.rs` — RESP values, `serialize`, and `parse` over a byte buffer; a proof that
  parsing what `serialize` wrote gives the value back.
- `src/decimal.rs` — decimal integers as RESP and command arguments write them.
- `src/commands/` — the keyspace (`Db`, keys typed as strings or lists, deadlines in Unix
  milliseconds), the dispatcher, and the commands `PING`, `ECHO`, `DEL`, `EXISTS`, `GET`,
  `SET`, `INCR`, `DECR`, `LPUSH`, `RPUSH`, `LRANGE` and `SAVE`, each with a contract over a
  model of the keyspace; `persistence.rs` encodes and decodes the dump and proves that a
  saved keyspace loads back as its live entries, and that a dump cut short does not load.
- `app/` — the server: sockets, the clock, the dump file, the locks and the expiry sweeper.
  It hands the library bytes, values and the current time, and performs what the
  dispatcher asks (`Action::Save` writes the dump).
