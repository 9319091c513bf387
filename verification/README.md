# commonware_runtime

Interfaces of a runtime for concurrent tasks, and a deterministic runtime that implements them,
written in Verus.

- `src/` is the library. Every operation has a contract over plain values: `scheduler` decides
  which task is polled next and when time moves, `memory` and `partition` keep blobs, `switch`
  keeps listeners and connections, `handle` and `signal` say what tasks come to and when they are
  asked to stop, `metrics` and `registry` name metrics and render them with `prometheus_client`.
  `deterministic` puts them together behind the traits of `task`, `clock`, `network`, `storage`
  and `metrics`. Functions named `law_...` prove what holds of all inputs.
- `tests/` runs the library on concrete values.
- `app/` offers the same interfaces to futures: it polls, wakes and waits, as the library decides.
