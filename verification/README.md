# hypha

An S3 gateway that keeps plaintext in a cache and an encrypted copy of everything on a remote.  The
library in `src/` is written in Verus: each function states in its contract what it returns or
changes, and the laws that relate several of them are proof functions beside them.

* `format/`: age envelopes, ciphertext geometry, the authenticated trailer, ranged reads.
* `meta/`: object names, tombstones, facts twins and user metadata, and the laws on names.
* `codec/`: the pull-based encryption of a body, one body for two readers, composite reads.
* `bucket/`: a bucket's admission word, its lifecycle, restore and the pending-set rebuild.
* `gc/`: recency, probing, eviction, debris, orphaned shadow bodies and the escalation ladder.
* `markers`, `replication`, `background`, `pressure`, `keylocks`, `halt`, `serve`: what the running
  process decides.
* `config`, `error`, `backend`, `auth`, `admin`: configuration, errors, and what is read from replies.
* `codes`, `digest`, `checksum`, `le`, `order`, `text`, `names`, `pairs`, `registry`: the ground the
  rest stands on.

What the library has from other crates (age, digests and checksums, Bloom filters, a map, text
encodings, random draws) it calls through small functions whose contracts are believed; each says so
above it.

`app/` is the gateway itself: it does the I/O, drives the library's decisions, and holds what is
floating point.  `tests/` runs the library.
