# trace_lang

Reasoning provenance as a first-class value: every computation returns a
`Trace<T>` — the value together with the causal chain of steps that produced
it, the branches considered and rejected, the confidence at each decision,
and the time and cost of each step. Tasks that carry pointers to the traces
that completed them, a lineage graph between traces, human-in-the-loop
pauses, agent contexts with budgets and delegation chains, and an inspector
for checkpointed task graphs are built on top.

## Layout

- `src/` — the library, written in Verus and verified: data types, the
  task registry and its transitions, the lineage graph (reachability and
  critical path), escalation and delegation decisions, speculation winner
  selection, step contracts, the inspector's queries and tables, and laws
  (`src/laws.rs`) that relate several operations.
- `tests/` — ordinary Rust tests of the library.
- `app/` — the `trace` command line and everything around the library that
  performs I/O, awaits agents, or does binary64 arithmetic: checkpoint files,
  JSON, `spawn`/`delegate`/`run_with_escalation`/`speculate`, dollar totals.

Binary64 values (confidences, thresholds, dollars) are held in the library
as their IEEE-754 bit patterns and compared with IEEE semantics.
