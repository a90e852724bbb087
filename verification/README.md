# concensus

A cluster of nodes agrees on a sequence of values: each value is decided in a
numbered slot, by Multi-Paxos or by Raft. The protocols, the node around them and
the rules of the service and its client are a library verified with Verus; sockets,
clocks, serialisation and the command line stand around it.

- `src/` is the verified library. Nothing in it does I/O: a node takes an event
  (a proposal, a message, a tick) and answers with what is to be done (send,
  deliver, wait, stop).
- `tests/` runs the library, single machines as well as whole clusters over a
  simulated network.
- `app/` is the program: transports over TCP, Unix sockets and channels, the event
  loop, a gRPC service and its client.

## The library

| Modules | What they hold |
|---------|----------------|
| `config`, `message`, `error`, `value`, `text`, `collections` | identities, messages, errors, and what the rest is built of |
| `raft_model`, `raft`, `raft_laws` | the Raft machine: its model, its code, and what every step keeps |
| `raft_cluster`, `raft_safety` | a cluster of Raft nodes: election safety, log matching, leader completeness, state machine safety |
| `paxos_model`, `paxos`, `paxos_protocol`, `paxos_laws` | the Multi-Paxos machine, alone and with its storage |
| `paxos_cluster`, `quorum` | a cluster of Multi-Paxos nodes: agreement |
| `quiet_paxos` | Multi-Paxos for values that cannot be compared |
| `storage`, `rows` | what is persisted, in memory and as rows of a table |
| `protocol`, `node`, `node_laws` | a node of either algorithm: what it says is durable before it says it |
| `frame` | length-prefixed frames |
| `service`, `client`, `types`, `settings` | the log of decisions, watches, retries, status, and how a node is set up |
| `random` | random delays |

Executable functions have contracts over a model made of plain mathematical values.
Where a step draws a random delay, a variant whose name ends in `_with` takes the
delay as an argument. Where a storage decides, the contract says what holds if it
succeeds, that an error is returned only where the storage can fail with it, and what
a write that failed leaves behind: the writes before it are done, those after it are
not.

The cluster modules speak of every run from a fresh start, over a network that may
lose, repeat, delay and reorder messages, and with nodes that end between any two
actions, a Raft node also between any two writes of a flush, and start again from what
they persisted. A Multi-Paxos node sends a decision before it saves it, so one that
ends in between has forgotten it when it is back. No two decisions on a slot differ all
the same, the forgotten ones among them. Only a node alone can decide a slot anew that
way, for no other node remembers; what it saved stands, and only what is saved is
delivered.

## What is trusted

Three small functions call other crates and are believed: a draw from a range
(`rand`), the quoting of a text (`std`), and the check of an endpoint (`tonic`).
Their doc comments say what is claimed of them.
