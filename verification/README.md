# simkv

Deterministic simulation testing for a Raft-replicated key-value store, as a
verified library. **Every bug is a seed.**

A whole distributed system -- network, disks, clocks, crashes -- runs inside one
deterministic single-threaded simulator. A seed names a run: the same seed
replays the same message order, the same latencies, the same torn writes, on any
machine.

## Layout

| module | role |
|---|---|
| `simcore` | the deterministic world: random numbers, event scheduler, network, disk, fault injection, tracing |
| `sim_io` | the narrow interface a node is allowed to use: clock, messages, storage |
| `kvstore` | the system under test: Raft plus a key-value state machine |
| `checker` | the oracles: Raft safety invariants, durability, linearizability |
| `harness` | seeds in, verdicts out: workload, runs, sweep, shrink, replay, command line options |
| `figures` | numbers as reports show them: to 53 binary digits, then to a few decimals |

`app/` is the `sim` program: argument handling, printing, files and threads
around the library.

## How it is specified

Every type with contents has a view, a mathematical value that contracts speak
of. What a node does is a function of its state and of what the world answers;
its effects are listed in the order they happened (`sim_io::effect`). What a
whole run comes to is `harness::cluster_model::run_of`, a function of its
configuration alone, and `harness::run` is proved to return exactly that.

On top of the contracts stand the laws, public proof functions named `law_..`.
Some of them:

- `simcore::disk`: what was synced survives a crash; a torn write never lands
  whole.
- `simcore::scheduler`: what fires is the earliest live event, ties in the order
  they were scheduled in.
- `kvstore::recovery`: a written log is read back; damage loses only what lies
  behind it; the bytes that are kept are what the recovered entries are written
  as; a torn hard-state write falls back to the previous state.
- `kvstore::layout_laws`: what a node writes of its log is what recovery reads, and
  offsets count the records before them.
- `kvstore::raft_laws`, `kvstore::raft_vote_laws`: terms never go back, votes
  stand, commits are not taken back, no message is of a term that a crash could
  undo, nobody leads without a majority, nobody acknowledges more than was
  compared and is durable.
- `kvstore::raft_durable_laws`: a range that is synced early is claimed once, and
  only if, what lies below it is synced too, in whatever order batches finish.
- `checker::search`, `checker::locality`: the linearizability search is right in
  both directions, and checking key by key is enough.
- `checker::durability`, `checker::invariant_laws`: each check is silent exactly
  when its property holds, or reports what it exists to report.
- `harness::time_laws`: time only moves forward.
- `harness::trace_laws`: tracing changes nothing about a run.
- `harness::run_laws`: what a run that passes has shown.
- `harness::shrink`: a shrunk configuration fails the way the first one did, and
  shrinking ends.

## Trust

Two standard library functions are called through wrappers in `text`: the
`Debug` output of `str`, whose escaping is named rather than restated, and
`core::str::from_utf8`.
