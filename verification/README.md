# asynchronous

Promises, deferred tasks and event loops, with their behaviour stated in
contracts and proved.

- `src/promise.rs`: `Promise`, the settled result of a task, and what follows
  from it (`success`, `fail`, `chain`, `then_either`, `all`, `finally`).
- `src/deferred.rs`: `Deferred`, work stored now and run later; runs of many
  tasks in series or in parallel (`vec_to_promise`, `first_to_promise`), with
  the results each kind of run gives.
- `src/schedule.rs`: the decisions of a parallel run (how many tasks to start,
  when to stop, whether the run failed) and the assembly of its result.
- `src/event_loop.rs`: event loops: the loop's state, its treatment of each
  event, and the events it collects.
- `src/laws.rs`: properties of runs and of event loops.
- `app/`: the threads around the library: deferred work started in the
  background, parallel runs on threads of their own, and event loops shared
  between threads through handlers, with timers that finish them and functions
  that emit events to them.

In `src/` all work runs on the calling thread; a parallel run there finishes its
tasks in the order in which it started them, one of the orders a run on threads
can take.
