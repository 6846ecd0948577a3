# kv_store

A replicated key-value store. Writes go into a checksummed write-ahead log that
doubles as a Raft log; the nodes of a cluster elect a leader and replicate to a
majority before they acknowledge anything.

`src/` is the library, verified with Verus. It decides and performs nothing: its
functions are handed what was read or received and say what to write, send, answer
and persist. `app/` is the program around it: sockets, timers, files, and the
encoding of messages.

| Module | What it is |
|---|---|
| `wal`, `wal_laws` | the log file: framing, recovery, and what survives a crash |
| `raft_log`, `raft_laws` | the file's records as log entries; taking a leader's entries |
| `kv` | the state machine |
| `state` | term, vote and commit index, and the file that holds them |
| `quorum` | majorities |
| `node`, `node_laws` | one node: votes, elections, replication, commit, requests |
| `cluster` | nodes and messages as a transition system over the same functions |
| `cluster_invariant`, `cluster_commit`, `cluster_laws` | what every run of a cluster keeps |
| `message`, `wire`, `client`, `config`, `timing` | messages, framing, command line, settings, timeouts |
| `bytes`, `text`, `checksum` | encodings |

The laws are the public proof functions whose names start with `law_`. The central
ones are in `cluster_laws`, and hold of every run of a cluster: no term has two
leaders, logs agree wherever they meet, committed entries are never truncated, no two
members disagree about what is committed, every state machine is a replay of it, and
a write that was acknowledged is in the log of every later leader.

What is trusted rather than proved is marked where it is declared: the checksum of
`crc32fast`, the encoding of the state file by `bincode`, the random numbers of
`rand`, and two functions of the standard library.
