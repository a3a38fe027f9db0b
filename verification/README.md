# graph_engine

Activity-on-edge project planning with the critical path method, verified with
Verus.

A project is a list of tasks, each with three duration estimates (optimistic,
most likely, pessimistic), and a list of dependencies between them. The
library builds the task graph (a `petgraph` directed graph), schedules it by
the critical path method with PERT estimates, and lays it out in layers for
drawing. Durations are counted in milli-days (they may be negative) and
schedule times in sixths of a milli-day, so that every result is exact
integer arithmetic.

## Layout

- `src/graph.rs`: the `petgraph` graph behind trusted wrappers, and the
  graph notions the contracts use (edges, neighbours, walks, cycles,
  topological orders).
- `src/aoe.rs`: tasks, dependencies, projects, and building a project's
  network; errors for unknown tasks and cycles.
- `src/critical_path.rs`: the forward and backward passes, the schedule of
  each task, the critical path, and the laws of a schedule (slack is never
  negative; with estimates that are not negative, a critical task exists; a
  critical task that starts after time 0 follows a critical predecessor; and
  the times do not depend on the topological order they were computed in).
- `src/layout.rs`: layering a network for drawing, and the laws of a layout.
- `src/lib.rs`: scheduling a project, and planning it (schedule and layout).
- `src/edit.rs`: editing a project by hand: the next free task id, adding
  and removing a task (removing a task just added undoes the addition, and
  removing a task keeps a project that can be scheduled so), labels, and
  checking a new task's fields.
- `src/mock.rs`: the sample projects, which always schedule, and picking
  one from a request.
- `src/session.rs`: the conversation with the assistant.
- `src/text.rs`: trimming and clipping text.
- `app/`: the desktop program (`egui`/`eframe`), JSON reading and writing
  (`serde`), and the Python bindings (`pyo3`); none of it is verified.
- `tests/`: tests of the library.
