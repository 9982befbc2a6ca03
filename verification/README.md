# cordis

Verified bookkeeping of the Cordis plugin runtime.

- `src/` — the Verus library: resident Fibers and their cleanup journals
  (`fiber`, `gated`), the exact-slot Service store (`store`, `service`), the
  reverse dependency projection (`deps`), Runtime-level notification and
  realm mapping (`runtime`), listener registration (`listener`),
  lifecycle-recursion attribution (`settle`), the watchdog decision
  (`deadline`), component artifacts (`component`), and the laws that span
  them (`laws`).
- `tests/` — tests run against the compiled library.
- `app/` — threads, tokio task-locals, the typed `Any`-based Service facade
  and `std::error::Error` impls around the library.

Not in the crate: the wasm component plugin glue (instantiation, guest calls,
epoch ticking) and the typed event dispatch (`emit`, `emit_parallel`, `query`,
`waterfall`). The decisions of applying one guest generation stand in
`component::apply_step`, and a generation's cleanup journal is drained by
`Root::drain_fiber`.
