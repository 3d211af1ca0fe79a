# meta_system_kernel

Runtime primitives for the Meta-System Kernel, written in Verus: every
function under `src/` carries a `requires` / `ensures` contract and is proved.

A `KernelRuntime` owns one System Graph. Callers submit typed Events
(register or unregister a Component, record an Effect) and send Events through
Rooms, emissions and broadcasts; an `EventLoopDriver` starts, advances and
stops Component Runtimes and observes Mailbox processing. Components are
brought in through the ordered `Loader` lifecycle (declare, locate,
materialize, inspect, admit or reject, register, mark ready).

## Layout

- `src/` — the verified library.
  - `identity.rs`, `system.rs`, `declaration.rs`, `error.rs`: identities,
    graph entities, Component declarations and errors.
  - `keyed.rs`, `search.rs`: keyed tables ordered by identity, first-match search.
  - `graph.rs`, `consistency.rs`: the System Graph, its well-formedness and the
    consistency every Runtime state keeps.
  - `resolution.rs`: Binding candidates, Binding hooks, activation plans and
    dependency fronts.
  - `removal.rs`: removal closures and the cleanup of unregistration.
  - `mailbox.rs`, `routing.rs`, `delivery.rs`, `distribution.rs`: Rooms,
    bounded Mailboxes, frontier delivery and Event distribution.
  - `execution.rs`: the Driver contract and the sequential reference Driver.
  - `runtime.rs`: the Kernel Runtime, its Event handling and graph queries.
  - `loader.rs`: the Loader lifecycle, its hooks and materializer contract.
  - `native.rs`: checks on native Component headers and layouts.
  - `laws.rs`: properties that span several operations, stated as proof functions.
- `tests/` — executable tests of the public API.
- `app/` — the parts that need `libloading` and `thiserror`: loading native
  Components from shared libraries, and error types with `std::error::Error`.
