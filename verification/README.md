# qp_rs

An active-object framework for event-driven embedded software, verified with
Verus: events and signals, hierarchical state machines (handler-driven and
table-driven), event queues, memory pools, time events, a cooperative kernel,
a preemptive kernel with preemption thresholds, and a layered RF stack
(transport, network, LoRaWAN MAC, FOTA).

Layout:

- `src/qf/` — the framework core: events, duplicate storage, pools, queues,
  state machines, time events, the cooperative kernel, fault checks.
- `src/qk/` — the preemptive kernel: ready set, scheduler, kernel, timer wheel.
- `src/comms/` — frames, protocol layers, the stack and its active object,
  LoRaWAN and FOTA.
- `src/blinky.rs` — the blinky demo state machine.
- `app/` — what stays outside verification: the process-wide fault handler,
  the atomic reference count, the global interrupt-nesting counter, the
  blocking run loop and the serialisable event types.
- `tests/` — scenario tests run against the compiled library.

Every executable function in `src/` carries a contract; the laws the library
keeps (round trips, lock/unlock, transition shapes, retransmit budgets, …)
are public proof functions next to the code they speak of. Three small
trusted wrappers remain: AES-128 and CMAC from the `aes` and `cmac` crates
(`src/comms/mac/lorawan.rs`) and `Arc::clone` (`src/qf/event.rs`).
