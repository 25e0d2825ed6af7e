# calvinfs_demo

The metadata service of a small distributed file system, with its decisions verified in
Verus. A sequencer puts operations (create, mkdir, unlink, rmdir, rename, stat) into ordered
batches; every shard runs the same batches, and all shards come to the state of a serial run.

Three schedulers run a batch:

- `CalvinLocking`: deterministic locks, granted in batch order.
- `SccOnline`: speculation on the predicted success of every transaction; what fails runs again
  under locks.
- `Aria`: every transaction runs once on the state before the batch; what used a key that an
  earlier one wrote runs again under locks.

## Layout

- `src/` is the verified library.
  - `model`, `path`, `collections`, `state`: paths, inodes, transactions, ordered sets and maps.
  - `executor`, `serial`, `router`: what an operation does, a serial run, and where keys live.
  - `lock`, `scc`, `storage`: queues of locks, plans and deltas of speculation, the inode store
    on `redb`.
  - `engine`: what shards and the sequencer decide, each step as a function of what is known and
    what just happened. `locked_run`, `scc_run` and `aria::run` take one transaction from step to
    step; `calvin`, `scc_batch` and `aria::batch` do the same for a batch.
  - `proto`, `convert`: messages, and the way between them and values.
  - `checker`, `workload`: comparing a finished run with a serial one, and a workload to run.
  - `laws`: what holds of all of this together: effects, trees, shards, locks, speculation,
    snapshots, orders, records, the workload.
- `tests/` runs the library; `tests/cluster.rs` runs whole clusters.
- `app/` is the running node around the library: tasks, timers, gRPC and error texts.

## What is trusted

The contracts of the calls into `redb` and `bincode` in `src/storage.rs`, and of `str::trim` in
`src/engine/profile.rs`. Each is stated above the function that makes the call.
