# nodespace-core-logic

Core business logic of NodeSpace: a knowledge graph of nodes organised under date
nodes, with multi-tier embedding caches, hierarchy computation, retrieval-augmented
question answering and cross-modal search, over a pluggable node store (`DataStore`)
and language-model back end (`NLPEngine`).

The library in `src/` is written in Verus and verified. Where a result rests on the
store or the back end, which are traits without contracts, a contract states what the
library itself decides (readiness refusals, the requests and nodes it builds through
helpers with exact contracts, how caches change); the laws of the library (cache read-after-write and eviction order,
dependency recording and invalidation, sibling ordering, sort order, descendant walks, date keys,
prompt budgets, merging of search hits, moves that cannot create cycles) are stated
and proved as `law_*` proof functions.

- `model`: node identifiers, JSON documents, nodes, calendar days and their keys.
- `lru`, `embedding_cache`: the LRU tiers and the smart embedding cache.
- `hierarchy`, `ordering`: descendant walks, parent indexes, sibling chains, trees.
- `context`, `document`, `query`, `links`, `temporal`: texts for embeddings and
  prompts, JSON rendering, extraction of entities and times, relationship links.
- `service`: the service over a store and a back end.
- `errors`, `monitoring`, `text`: errors, operation timers, string helpers.

`app/` holds what the library leaves out: an asynchronous facade behind a lock,
serialisable copies of the library's types, conversions from `serde_json` and
`chrono` values, and the floating-point scores, rates and confidences.

The `uuid` dependency supplies fresh node identifiers (`NodeId::new`), which the node
types crate of the wider project would otherwise provide; it is called in one trusted
wrapper (`model.rs`).
