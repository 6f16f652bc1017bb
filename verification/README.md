# chronik_server

The decision-making core of a Kafka-compatible broker, written in Verus and
proved against its contracts.

- `src/` is the verified library: consumer-group synchronisation and the
  assignment wire format, in-sync replica tracking and publishing, `acks=all`
  quorum waits, leader leases and heartbeats, coordinator placement on a
  consistent-hash ring, error classification and error responses, request and
  response framing, request body parsing, offset commit and fetch planning, ListOffsets answers,
  start-up watermark recovery, and the fetch path (record-batch parsing, the
  in-memory batch buffer, stored and uploaded segments, merging records from
  the storage tiers).
- `app/` is the runtime around it: locks, tokio tasks and timers, socket
  reads and writes, environment variables, and copies of library types that
  carry serde, thiserror or `Display`.
- `tests/` exercises the library on concrete values.

Calls into outside crates (dashmap, murmur2, crc32c, bytes, byteorder,
anyhow) and into std where vstd gives no specification are made through small
trusted wrappers whose contracts say what the crate's source shows.
