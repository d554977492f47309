# liminal_db

The verified core of LiminalDB, a reactive, adaptive database that models
data operations as a field of cells fed by impulses. The functions under
`src/` carry contracts proved by Verus, except the few small wrappers that
call `std`, `regex`, `blake3` and `crc32fast`: their contracts are taken on
trust and each says in its doc comment what it claims of the call. `app/`
holds the input/output around the library; `tests/` exercises it on
concrete values.

The live field's float-driven behaviour (its tick, impulse routing, dream,
sync and awakening cycles, the resonant model, symmetry, and restoring a
field from a snapshot) is not part of this crate. What the library holds of
the field is its replayable core: the cells, links, token index, rules,
report rings and synchronisation log that the journal's deltas change.

## src/

| module | what it holds |
|--------|---------------|
| `lql` | the LQL query language: tokens, `SELECT`/`SUBSCRIBE`/`UNSUBSCRIBE`/`INTROSPECT` parsing and its error messages |
| `threshold` | the `strength>=`/`salience>=` thresholds, read exactly as `f32` parsing reads them |
| `views` | standing views: ids, the emit schedule, due views |
| `wal` | the write-ahead log: record framing with CRC-32, reading segments back, rotation, file naming, compaction choices |
| `security` | roles, API keys, namespaces, quotas, the authorization check, BLAKE3 secret hashing |
| `resonant` | the bounded synchronisation log and its totals |
| `protocol` | bridge configuration, introspection requests, tick adjustment, the outbox, reading the field's text logs |
| `hub` | the register of stream clients, their report lines, the short keys of the CBOR wire |
| `nlu` | reading spoken commands as intents through fixed regular expressions |
| `field` | pattern tokens, reflex token matching, seed bytes, console impulse words |
| `synchrony` | the co-firing graph, its connected components, their ranking and naming |
| `window` | time-stamped queues with retention and a cap (recent hits, reflex counters) |
| `usage` | link and route usage counts with least-used eviction |
| `life` | the life loop's decisions: tick restoration after dreams, due work, tick adjustment |
| `console` | what a console line and the `:reflex`/`:trs`/`:ws` commands ask for |
| `summaries` | the status's most salient tokens |
| `replay` | the field's replayable core (cells, links, token index, reflex rules, report rings, sync log, model hashes) and how each journal delta changes it |
| `commands` | what a command object received on the stream socket asks for |
| `routes` | the link and route usage that the steps of an impulse leave |
| `keyed` | vectors of id-keyed records read as maps, and of distinct ids read as sets |
| `seeds` | seed kinds and stages, their growth with time, planting ids |
| `journal`, `mirror`, `types`, `sal` | plain records, kinds and labels, the storage abstraction trait |
| `text`, `assoc` | character-level helpers and association lists shared by the others |

Laws that span several calls are public proof functions next to the
functions they speak of (for instance `wal::lemma_log_round_trip`,
`protocol::lemma_restore_undoes_take`, `synchrony::lemma_groups_are_components`,
`replay::lemma_replay_in_parts`, `replay::lemma_replay_recorded_live`,
`lql::lemma_keywords_read_in_any_case`, `hub::lemma_registered_stays_listed`).

## app/

The file-backed store (`store`), the process-wide client register (`hub`),
the JSON/CBOR stream codec (`codec`), protocol events with CBOR values
(`protocol`), intents and console impulses with their float values
(`intents`), rate limiting and the float-valued measures (`measures`),
restoring a field from its journal with the float state the replay hands
back (`replay`), the rate regulator's float loop (`trs`), and the serde
forms of the library's types (`wire`).
