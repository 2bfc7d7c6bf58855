# forkjoin

A work-sharing fork-join parallelism library, with its engine verified in Verus.

- `src/` — the verified library: tasks and algorithms (`algorithm.rs`), join
  barriers and the laws on how they collect results (`barrier.rs`), the
  engine that turns task results into subtasks, barrier fills, completed
  joins and messages to jobs (`scheduler.rs`), the laws on whole runs of
  the engine — a Reduce computation hands its job the value of the problem
  tree once (`run.rs`), a Search computation hands it every leaf value once
  (`search.rs`) — the job handle and its error type (`job.rs`), and the
  trusted calls into `std::sync::mpsc` (`channel.rs`).
- `app/` — the thread pool (`ForkPool`, `AlgoOnPool`, a draining `Job`
  handle) that runs the engine on worker threads.
- `tests/` — runs of the engine on the reduce and search examples.
