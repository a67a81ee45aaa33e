# UltraCortex

The deterministic core of a shared-memory substrate for agents that polices
itself: its state machines, codecs, stores and rules, written in Verus and proved
against their contracts.

## What is proved

- Canonical CBOR: what is encoded is decoded back, equal values have equal bytes,
  and re-encoding changes nothing.
- The write-ahead log: every whole frame is replayed, a torn tail is cut off, and
  replaying twice is replaying once.
- Sealing and key rotation: what was sealed is opened again, under every key that
  was ever active.
- The audit chain: appending keeps it whole, and a record that others follow cannot
  be changed unseen, short of two records with one digest.
- The ledger of cross-checks: every batch that was signed is verified, after any
  rotation and after a restart.
- Snapshots: whatever the cells held before, taking up a snapshot leaves them with
  the same snapshot and the same state hashes.
- The cells: facts and their supersession, timelines, scratchpad, playbooks, blobs,
  the graph, the lexical and the vector index, registry, proposals, subscriptions
  and the cache.
- The curators: the librarian's outputs rest on known handles, the warden's verdict
  does not depend on the order of evidence, disputes are settled once, and private
  facets are out of a peer's reach.
- Access: without a token that holds, nothing is served.

Every public function states what it returns for every input it accepts. Functions
named `lemma_…` that are public state what holds across functions.

## Layout

- `src/` — the library.
  - `vocab`, `ulid`, `text`, `textmap`, `idmap`, `bytes`, `hex`, `fixed`: words,
    ids, texts, maps, numbers. Doubles are handled by their bit patterns.
  - `cbor`, `codec`, `codec_laws`, `minitoml`, `glob`, `deepseek`: formats.
  - `digest`, `cipher`, `persist`: digests, ciphers, log, keys, snapshots, stores.
  - `cells`, `curator`, `substrate`: the cells, the curators, and all of them
    together.
  - `obs`, `net`, `config`, `proto`, `cli`, `wiring`, `node`, `snapshots`,
    `bootstrap`: operating a node.
- `tests/` — the library's tests.
- `app/` — the program: files, sockets, threads, the clock, and floating point.

## What is trusted

Five functions of the standard library that come without a contract:
`String::push`, `String::from_utf8`, `str::to_lowercase`, `char::is_alphanumeric`
and the `Debug` form of `str`. Each is declared where it is used, with what is
claimed of it.
