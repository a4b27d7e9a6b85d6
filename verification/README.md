# arc_dev_kit

A toolkit for programs built from modules and their abilities, with
closable, rate-limited task queues.

- `src/` is the verified library (Verus):
  - `ability.rs`: ability identities and descriptors, and `AbilityRun`, the
    protocol of one execution (`before_execute`, the run, then
    `after_execute` or `on_error`) as a state machine whose next step the
    caller performs.
  - `module.rs`: module identities and descriptors.
  - `runner.rs`: the registry's decisions: which abilities run and in what
    order (a stable sort by priority; none of a disabled module), the
    batches of each execution strategy, the initialisation and shutdown
    orders, the report of one execution (timeouts included), which reports
    stay out of the results (those of modules whose output is suppressed)
    and the grouping of reports by module.
  - `queue.rs`: the first-in first-out task queue with its closed state and
    rate limit, which every take keeps; time is passed in as nanoseconds on
    a monotonic clock.
  - `manager.rs`: the table of queues, one per task type, keyed by `TypeId`.
  - `error.rs`, `text.rs`: the errors and the text of their messages.
- `app/` is the asynchronous shell: the `Ability` and `Module` traits with
  their async hooks and `inventory` registration, the execution context and
  event bus, the awaitable shared queue over the library's queue, and the
  program-wide queue manager.
- `tests/` exercises the library on concrete values.
