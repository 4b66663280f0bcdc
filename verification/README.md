# agm_cli

The command-line side of AGM (Agent Graph Memory): execution state of a
node graph, scheduling decisions, the memory sidecar runtime, `verify`
checks, context building for agents, the shell agent's file edits, the
LLM-bench bookkeeping and the system-prompt corpus. Every function of the
library carries a contract; Verus proves each of them except those of the
small trusted wrappers around outside crates, which it takes on trust.

## Layout

- `src/` — the verified library.
  - `runtime/` — node model, dependency graph, execution tracker and its
    state machine, scheduling decisions and the order of orchestration
    groups, memory stores, `verify` checks, context assembly, the shell
    agent's decisions.
  - `commands/` — what the CLI commands compute: exit codes, report lines,
    lint heuristics, repair and ingest helpers, schema paths.
  - `bench/` — cassettes, provider replies, case evaluation and report
    lines of the LLM bench.
  - `corpora/` — templates, example bank and padding of the prompt corpus.
  - `keyed.rs`, `text.rs`, `pattern.rs`, `clock.rs` — an ordered string map,
    string helpers, regular expressions and globs, wall-clock time.
- `tests/` — tests run against the compiled library.
- `app/` — the `agm` binary. Two commands are wired up: `corpus` and
  `llm-bench --cost-only`. The other commands need the AGM parser and
  renderer, or the HTTP providers, which are not part of this build; what
  they would run is here all the same, unreachable from `main`: the shell
  agent's disk and process work, the `verify` checks, the topological run
  loop (each step decided by the library's `next_step`) and the bench
  report's floating-point figures.

Calls into `regex`, `sha2`, `hex`, `tiktoken-rs`, `time` and a few `String`
methods go through those wrappers; each one's doc comment says what its
contract claims of the outside code.
