# telemetry_edge

Rule-driven vehicle telemetry, as a verified library and the programs around it.

- `src/` is the library. Its functions state what they do in `requires` and
  `ensures` clauses, which Verus proves. The exceptions are the test clock, whose
  time changes behind shared references, and the start of the system clock, which
  the machine gives. Proof functions named `law_..` state what holds across
  functions.
- `app/` is ordinary Rust: `telemetryd` (the edge daemon), `simulator` (a fake
  vehicle bus) and `cloud` (a scaffold). It does the I/O, the JSON and TOML, the
  threads and the sines.
- `tests/` run the library.

| Module | What it holds |
|---|---|
| `catalog`, `enum_map` | Signal catalogs: validation and lookups |
| `wire`, `codec`, `bytes` | Packets, payloads and byte orders |
| `ruleset`, `compile` | Rule sets, and what makes one valid |
| `condition`, `expression` | Rule conditions, parsed and run by the `cel` crate |
| `engine`, `engine_laws` | What is logged when |
| `clock` | Injectable time |
| `ingest`, `engine_task`, `output`, `counters` | The daemon's decisions and totals |
| `vehicle`, `garbage`, `rng` | The simulator |
| `double`, `rounding`, `precision`, `remainder`, `decimal` | Double-precision numbers, computed from their bits |
| `text`, `text_map`, `name_set`, `value` | Texts, maps keyed by text, physical values |

What is trusted rather than proved stands in `expression` (the `cel` crate) and
in `clock` (the standard library's time).
