# ocel_mine

Object-centric process mining over OCEL 2.0 event logs, written in Verus:
per-type trace variants, directly-follows graphs and their object-centric
overlay, case digests, lead-time and coverage metrics, the alpha, heuristics,
inductive and POWL miners, replay fitness of process trees, POWL models and
Petri nets, escaping-edges precision, and seeded noise injection. Each
analysis carries a contract that Verus checks; where a contract leaves
something open (which grouping a cut takes, whether the partial-order cut
applies), its doc comment says so.

## Layout

- `src/` — the verified library. It reads an `EventLog` of plain values
  (objects by index, times as seconds and nanoseconds) and states each
  analysis as a contract over that log: what every field of a report is,
  which items a list holds and in what order.
  - `log`, `trace`: the log and the per-object traces (time order, ties by
    event position, one step per event and object).
  - `variants`, `cases`, `dfg`, `oc_dfg`, `metrics`, `stats`, `spread`: the
    descriptive analyses.
  - `alpha`, `petri`, `heuristics`, `miner` (inductive), `powl_miner`:
    discovery; `cuts` and `partial_order` hold the directly-follows graph,
    the pairwise categories and the partial-order grouping the two
    recursive miners cut on.
  - `model`, `replay`, `powl_replay`, `net_replay`, `precision`: evaluation
    of process trees, POWL models and Petri nets against a log.
  - `noise`: deterministic noise injection.
  - `keysort`, `text`, `closure`, `count`: sorting by integer keys, string
    order, transitive closure, sums.
- `tests/` — tests of the library on concrete logs.
- `app/` — the library on `ocel` logs: conversion of `ocel::Ocel` (each object
  id once, as its first object), serde-ready
  report types with medians, means and ratios as floating point, and the
  variant clustering, whose merges rest on floating-point similarities.

Thresholds of the heuristics, inductive and POWL miners are exact fractions
in the library; noise rates are chances of a 53-bit draw. The app converts
both from `f64`: a threshold becomes the simplest fraction that reads back as
the same number.
