# replog

A replicated, segmented commit log: partitioned append-only storage with
CRC-protected records and torn-write recovery, a binary protocol, consumer
groups, leader/follower replication with in-sync replicas and leader-epoch
fencing, and a fault-injection harness whose checker judges client-observed
histories.

The library under `src/` holds every rule of the system and is verified with
Verus. It does no I/O: a function takes the bytes, times and answers that were
observed, and returns what is to be done (file operations, frames, requests,
the next step). The programs under `app/` perform it.

| module | what it holds |
|---|---|
| `storage` | records, sparse index, segments, the log, leader epochs; what survives a crash |
| `proto` | the wire format: requests, responses, cluster metadata |
| `broker` | the partition writer, request routing, fetches, groups, offsets, replication |
| `controller` | liveness, elections, in-sync sets, snapshots |
| `client` | connections, producers, consumers, group members, leader routing |
| `checker` | histories of what clients saw, and their verdict |
| `harness` | seeded random numbers, the cuttable proxy, process clusters |
| `torture` | faults, targets, schedules, failover measurements |
| `codec`, `crc`, `text`, `order`, `ids`, `search` | numbers as bytes, checksums, numbers as text, sorting and searching |

Each guarantee is a public proof function named `law_...`, beside the functions
that it is about or in a file of its own: `storage/disk.rs` and
`storage/stable.rs` (what is read back, what survives a crash),
`broker/replica_laws.rs` and `broker/failover_laws.rs` (what is committed is
replicated, and survives a failover), `broker/group_laws.rs`,
`controller/laws.rs`, `checker/laws.rs`.

`app/` is one program with a role as its first argument: `broker`,
`controller`, `produce`, `consume`, `torture`, `faults`, `append-bench`,
`broker-bench`, `failover-bench`.
