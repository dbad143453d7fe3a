# rafty

Raft consensus, verified with Verus. `src/` holds a node of the protocol, the
storage and channels it works on, a simulated cluster, and the rules of the
programs around them. The functions state what they do. Safety is proved of the
protocol as a state machine, over all its runs; what the simulated cluster does
is such a run as long as its queues make nothing up. Which message a queue gives
out, and which number a generator draws, is not stated.

## The library

| Modules | What they hold |
| --- | --- |
| `nonzero`, `node_id`, `config`, `error` | ids, settings, errors |
| `node_map`, `quorum`, `progress` | what a node keeps of each node |
| `proto`, `framing` | messages, and their frames on the wire |
| `storage`, `log` | the log of a node |
| `communication`, `rng`, `role` | channels, random numbers, roles |
| `model`, `node` | the state machine of a node, and the node that runs it |
| `course`, `catch_up` | what holds of nodes over several ticks and messages |
| `world`, `consistency`, `frame`, `steps`, `elections`, `replication`, `completeness`, `safety` | all runs of a cluster, and what holds of them |
| `network`, `cluster`, `simulation` | a simulated cluster over lossy queues |
| `wasm_types`, `wasm_cluster` | the cluster as a browser shows it |
| `driver`, `runner`, `visualizer`, `web` | nodes over TCP, watched on a dashboard |
| `logger`, `options`, `server`, `text` | a node as a process of its own |

`model::NodeModel` is the mathematical node. Each method of `node::Node` says
which step of the model it takes and what it hands to its channel. `world::World`
lets such nodes take steps in any order and messages get lost, doubled and
delayed. `safety` states what then holds: at most one leader in a term, equal
entries where logs agree, committed entries that stay, and more. A node of the
`World` does not restart.

## The programs

`app/` is ordinary Rust around the library: a node as a process, a dashboard
that runs a cluster on one machine, and bindings for scripts in a browser. It
holds the sockets, threads, timers and encodings.

## Tests

`tests/` runs the library on concrete values, with the random numbers and the
queues it uses in earnest.
