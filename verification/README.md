# openentropy_core

The byte-level core of openentropy — entropy conditioning, the entropy
pool's buffer and SHA-256 chaining, session bookkeeping, experiment
registration, and the integer building blocks of the analyses — written in
Verus, with every function's contract proved.

## Layout

- `src/` — the verified library.
  - `conditioning.rs`: raw / Von Neumann / SHA-256 conditioning and XOR folding.
  - `pool.rs`: the pool state (FIFO buffer, chaining state, counters).
  - `session.rs`, `calendar.rs`, `text.rs`: session bookkeeping, UTC dates,
    ISO-8601 and hex text, decimal parsing.
  - `consciousness*.rs`: bit counting, experiment modes and registration,
    ordinal patterns, recurrence lines, shuffle surrogates, connected
    components, direction assignment, template-match counts and LZ76
    phrase counts.
  - `metrics/`: label normalization, telemetry alignment and snapshot
    order, what the telemetry collectors make of `/proc`, hwmon, `sysctl`
    and `vm_stat` reports, stream selection, binning, windows and shifts of
    the coupling model, compressed size.
  - `counting.rs`: counting over integer ranges, used by the proofs.
- `tests/` — tests run against the compiled library.
- `app/` — ordinary Rust around the library: clocks, OS randomness, source
  threads, telemetry collectors, session and pre-registration files, JSON
  encodings, and the floating-point measures built on the library's counts
  (min-entropy estimators, approximate and sample entropy, LZ76 complexity,
  quality grades). The statistical analyses that are floating point
  throughout are not part of this crate.

Calls into `sha2`, `flate2` and the few std functions that vstd does not
specify go through small wrappers whose contracts are stated next to them.
