# emberchip

A deterministic RTOS simulator on a small emulated microcontroller, written as a
Verus library: a preemptive fixed-priority scheduler driven by a tick timer, an
interrupt controller, mutexes with priority inheritance, counting semaphores,
message queues, and memory-mapped peripherals (GPIO with an LED, a UART, a timer).

## Layout

- `src/mcu/` the emulated chip: memory, GPIO, UART, timer, interrupt controller.
- `src/kernel/` tasks, the scheduler and run loop, mutexes, semaphores, queues,
  the event log. `model.rs` gives the whole kernel as a mathematical state
  (`KernelView`) with one tick as a function of it (`stepped`); `Kernel::step` and
  `Kernel::run` are proved to compute exactly that. `laws.rs`, `accounting.rs` and
  `fixed_priority.rs` hold the laws every run keeps: the task that runs carries the
  highest effective priority, the event log accounts for every change of the
  mutexes, queues and semaphores, and without inheritance no priority ever moves.
  `boost.rs` and `restore.rs` hold those of priority inheritance: every holder
  runs at least at the priority of the tasks waiting on its mutex, no task runs
  below its own priority, and a boost ends once the holder lets go of every mutex.
  `holding.rs` shows that mutex owners and the tasks' held lists always agree. `work.rs` shows that a job costs
  exactly its worst-case execution time in CPU ticks.
- `src/rng.rs` the seeded SplitMix64 generator.
- `src/schedulability.rs` exact response-time analysis.
- `src/workload.rs` random periodic sets, the demo and the inversion scenarios.
- `src/stress.rs` the stress scenarios, the event folds that check them, and the
  lock-storm and deadlock outcomes they are judged on.
- `src/timeline.rs`, `src/text.rs` the rendered timeline and summary.
- `app/` the command line (`demo`, `run`, `inversion`, `analyze`, `stress`), the
  floating-point utilization bound, and the stress harness's run loop.
- `tests/` the correctness gates and unit tests.
