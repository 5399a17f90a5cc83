# motif-core

A tiny embedded follower graph store, verified with Verus.

A store is one append-only log: a 16-byte header, then length-prefixed
binary records, each a mutation (node or edge insert or delete, or a
schema). The engine replays the log on open, cutting off a torn tail,
and keeps hash-indexed maps from each live node and edge id to the
record that wrote it. Every commit is stamped with the local actor and a
sequence number and buffered for an upstream controller. A Cypher subset
(`CREATE`, `MERGE`, `MATCH` with node and edge patterns, `WHERE`,
`RETURN`, `ORDER BY`, `LIMIT`, `count`, `collect`, `DELETE`,
`DETACH DELETE`) runs against the engine.

## Layout

- `src/` — the verified library.
  - `wire.rs`, `record.rs`: the record format, with an exact spec of
    every encoder and decoder and round-trip proofs.
  - `log.rs`: what a byte string holds as a log (`scan`) and the graph
    that replaying it builds (`replay`).
  - `storage.rs`: the `Storage` trait, the header, `MemoryStorage`.
  - `engine.rs`: the engine; its state is `replay` of its log.
  - `query/`: lexer, grammar (as spec functions), parser, expression
    evaluation and interpreter.
  - `float.rs`: IEEE 754 doubles on bit patterns (order, equality,
    rounding of integers and decimal literals).
  - `strmap.rs`: the hash-indexed string map used throughout.
  - `messages.rs`: the text of every error, stated exactly.
  - `capability.rs`, `config.rs`, `sync/`: host facts, configuration,
    mutations, the outbox and the controller retry policy.
- `tests/` — tests run against the compiled library.
- `app/` — the `motif` command-line tool and everything that touches the
  operating system: the file backend, `motif.toml` parsing, the
  controller worker thread, host probes.

## What the proofs cover

- Every record decodes to what was encoded; a log reopens to the graph
  its records build, with a torn tail cut off and a corrupt record
  reported at its offset.
- Each engine operation changes the graph by exactly its record, or
  refuses with the reason (duplicate id, unknown endpoint, schema
  violation); on an in-process store nothing else fails, except a
  record too long for its 4-byte length prefix. `CREATE` and `MERGE`
  through a query carry the same promise.
- The lexer and parser compute exactly the grammar written as spec
  functions.
- For patterns that use each variable for one thing, `MATCH` returns
  exactly the joins of the patterns that meet `WHERE` (all of them, or,
  under a `LIMIT` without `ORDER BY` or aggregate, as many as the limit
  asks for when there are that many; `LIMIT 0` still takes the first
  match), sorted by the `ORDER BY` key (`DESC` giving the `ASC` rows
  reversed when no two keys tie), projected or aggregated per return item, and it fails
  only where some hint, inline property, `WHERE`, key or return item
  does not evaluate. `DELETE` removes exactly the matched nodes and,
  under `DETACH`, every edge touching one; a match that binds the
  variable to an edge, or not at all, stops it with that error, after
  deleting only the matches before it.
- A run of engine calls numbers its records consecutively, and the
  controller outbox receives exactly those records.
- Every error carries the exact message its `message` method writes;
  parse errors name the token found and what was expected there.
- The controller worker never sleeps longer than the configured backoff
  ceiling between retries.

## Limits of what is proved

- A pattern that uses one variable twice, such as `(a)-[r]->(a)`, or one
  name for both a node and an edge, runs as the other patterns do
  (bindings are unified), but for it the contracts only say that every
  row returned binds the patterns' variables to live nodes and edges and
  meets `WHERE`; that all matches are found, once each, and when such a
  query fails are not stated.
- Decimal literals are read exactly only up to 19 digits after the point
  and a digit string within 64 bits; longer ones are refused as invalid
  numbers.
