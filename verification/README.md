# cc-agent core

The verified core of a multi-agent software-delivery pipeline.

- `src/swarm/pipeline.rs` — the pipeline stages, their prerequisites, names
  and the laws on them (prerequisites come earlier and are listed once,
  names are distinct, what `Done` transitively requires).
- `src/swarm/graph_model.rs`, `src/swarm/task_graph.rs` — the task
  dependency graph: cycle detection by depth-first search and the
  level-by-level (parallel) topological order, both proved against a
  mathematical model of the graph.
- `src/swarm/graph_laws.rs` — laws of the level order (edges go forward,
  levels are disjoint, a node's level follows its latest predecessor,
  exactly the nodes with no cycle behind them are scheduled).
- `src/swarm/decomposer.rs`, `src/swarm/decomposer_laws.rs` — turning
  modules into tasks, building the dependency graph from the files tasks
  read and write (with the exact edges it gets, for any task list), and
  what the execution plan guarantees.
- `src/swarm/self_fix.rs` — the bounded self-fix loop as a step function;
  the caller performs the file writes it asks for, one at a time.
- `src/swarm/closed_loop.rs` — a project run as a step function; the caller
  publishes stages, reads artifacts and has results summarised; how every
  run ends, and which stage it published last.
- `src/swarm/evolution.rs` — best practices drawn from success patterns,
  and their saving, one at a time, under their memory keys.
- `src/ids.rs` — fresh random ids (UUID version 4).
- `app/` — the asynchronous shell: tool-server client, memory store trait,
  the learning step's floating-point parts, drivers for the step
  functions, and serialisable records of the library's data.
