# crowdb_chunkdb

The chunk manager of a distributed block store: it decides where the strips of
a chunk lie, keeps the record of every chunk through its life, and runs the
background work that turns mirrors into erasure-coded strips, repairs damage
and moves segments. `src/` holds these decisions as a library whose contracts
Verus proves. `app/` is a server around it, and `tests/` runs the library.

## Layout of the library

| module | what it decides |
|---|---|
| `types`, `table`, `order`, `arith`, `text` | records, keyed rows, stable sorting, saturating arithmetic, messages |
| `routing`, `storage` | which group holds a bucket, keys, fenced batches, reservation records |
| `range_guard` | which buckets an instance owns |
| `topology`, `selector` | racks, nodes, disk-groups and their capacity; placement of copies and shards |
| `allocator` | block requests, what the answers come to, rollback |
| `lifecycle` | create, append, advance, seal, delete, replace, reserve; locks and the payload cache |
| `task` | durable tasks: index, claim, dispatch, ownership of segments, relocation |
| `conversion` | mirror to erasure code: source, task, attempt, bandwidth |
| `repair`, `ad_hoc`, `placement_repair`, `placement_rebalance`, `relocation`, `finalize` | the other background work |
| `service` | requests and replies of the service |
| `metrics`, `chunkdb_config` | counters, configuration |

Work that alternates with I/O is a state machine: `new` gives the first action,
`step` takes what came of it and gives the next (`conversion::run`,
`repair::run`, `placement_repair::run`, `finalize::FrameScan`,
`finalize::ChunkRead`). Proof functions whose names begin with `law_` state what
holds across operations.

## What is taken on trust

Four outside things stand behind wrappers whose contracts are not proved: the
concurrent map of `dashmap` (`allocator::pool`), the cache of `quick_cache`
(`lifecycle::lock_map`), the shuffle of `rand` (`selector::mirror`) and the
quoting of a string by `format!` (`chunkdb_config`). Each says in its doc
comment what is claimed of it.

## The server

`app/ports.rs` names what a node needs from its cluster: records, hardware
tables, block services, shared encodings and a source of requests.
`app/standalone.rs` links a node with itself, all in the memory of one process.
