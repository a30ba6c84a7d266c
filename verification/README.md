# dcra: dependency-closed runtime assurance, verified

An action's permission should depend on evidence that is still usable when the
decision is made. This crate evaluates declared evidence with expiry deadlines,
combines it through threshold rules over an acyclic assurance graph, explains VALID
conclusions with witnesses and horizons, and runs a deterministic single-threaded
runtime with a controlled clock and an audit log. Every function of the library is
verified with Verus against a mathematical model of what it computes.

| Path | Responsibility |
| --- | --- |
| `src/clock.rs` | Nanosecond `Duration` and the controlled monotonic clock |
| `src/ids.rs` | Identifier order and the ordered identifier map and set |
| `src/evidence.rs` | Statuses, values with horizons, observations and their value over time |
| `src/assurance.rs` | Action contracts and decisions recomputed from evidence records |
| `src/graph.rs` | Graph validation, indexes and the least-ready topological order |
| `src/evaluator.rs` | Full evaluation: threshold rules, witness selection, horizons |
| `src/runtime.rs` | Updates, deadline processing, epochs and the audit log |
| `tests/` | Scenarios and concrete checks of the proved properties |
| `app/` | Demonstrations, and printable error types for `std::error::Error` |

Properties proved beyond each function's contract include: advancing the clock in
steps or in one jump gives the same state; the runtime's evaluation always equals a
fresh full evaluation and never shows support whose horizon has passed; witnesses
cite only evidence that is VALID now and end exactly at the first of its deadlines;
support lasts until its horizon; expiry keeps an observation's version; the epoch
counts the accepted observations and expiries in the audit log, which only grows,
in time and epoch order; a reordering of an accepted graph configuration is accepted
too and builds the same graph; time alone changes support only at horizons; and
evaluation is local to the evidence a node depends on.
