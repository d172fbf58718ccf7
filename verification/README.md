# dregheap

A key/value cache server. Clients send MessagePack requests (`Get`, `Set`,
`Delete` on a string key) in frames of four big-endian length bytes followed
by the body; the server keeps the values in a weighted LRU cache and answers
each request with a framed response.

## Layout

- `src/` is the verified library:
  - `cache_model.rs`: the abstract cache (items from most to least recently
    used, entry weights, eviction) and its lemmas;
  - `store.rs`: the cache itself, a slot vector holding a doubly linked
    recency list with a key index and a free-slot list, proved against the
    model;
  - `laws.rs`: properties that span operations (a store is read back, eviction
    takes the least recently used entries and no more, freed slots are reused);
  - `handler.rs`: serving a request against the store and the decisions of a
    connection (deadlines, closing);
  - `framing.rs`: length-prefixed frames;
  - `protocol.rs`, `config.rs`, `cli.rs`, `errors.rs`, `text.rs`: messages,
    settings, arguments, errors and decimal rendering.
- `app/` is the server program: environment and socket I/O, MessagePack
  encoding, the async connection loop and the accept loop.
- `tests/` exercises the library.

Each cache entry counts its key bytes, its value bytes and a fixed 64 byte
overhead. `DREG_MAX_CACHE_WEIGHT` bounds the total; when it is unset the cache
is unbounded.
