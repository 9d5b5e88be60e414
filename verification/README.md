# toy_redis

An in-memory key-value server that speaks RESP, with its logic written and
proved in Verus.

- `src/` is the verified library:
  - `protocol/`: the RESP parser (`resp.rs`), the reply encoders
    (`writer.rs`), and what the parser makes of encoded frames
    (`roundtrip.rs`).
  - `store/`: the open-addressing hash table with Robin Hood probing and
    tombstones (`hashmap.rs`, keys hashed with FNV-1a in `hashkey.rs`), the
    slab allocator (`allocator.rs`), the allocator-backed `KvStore`
    (`mod.rs`) and the 16-shard store (`sharded.rs`).
  - `commands/handlers.rs`: command parsing and execution, specified by
    `effect`.
  - `server.rs`: serving the request at the start of a connection's buffer.
  - `expiry.rs`: sweeping the keys whose deadline has come.
  - `aof.rs`: the append-only log: records, line splitting and replay.
  - `pubsub.rs`: channels, their subscribers and the channels of a
    connection (`SUBSCRIBE`, `PUBLISH`).
  - `laws.rs`: properties that relate several operations.
- `app/main.rs` is the server program: sockets, threads, locks, the clock and
  the log file.

Deadlines are kept in milliseconds since the server started.
