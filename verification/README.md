# conc_bug_detector

The verified core of a Petri-net-based static analyzer for concurrency bugs in
Rust programs: deadlocks and violations of atomicity. It is written in Verus;
every public function of the library carries a contract, and all but the
declarations under "What is trusted" are proved.

A program is translated function by function into a Petri net, whose places
stand for points of control and for shared resources and whose transitions stand
for what the program does. The markings that the net can reach form a state
graph, and the detectors search that graph.

## Layout

- `src/translate` — function bodies as plain values (`mir`), and their
  translation into the net (`mir_to_pn`): blocks, terminators, drops of lock
  guards, raw-pointer accesses, atomics.
- `src/concurrency` — lock guards, condition variables, channels and memory
  orderings, and how a guard is traced back to its lock.
- `src/memory` — locations (`pointsto`), the whole-program pointer analysis
  (`pta`), and the alias queries on it (`alias_engine`).
- `src/net` — the Petri net and the state graph.
- `src/detect` — the detectors, with what they promise.
- `src/report`, `src/display` — reports, and nets as DOT text.
- `tests` — the library from outside.
- `app` — the command around the library.

What the modules promise as a whole is proved in public proof functions: beside
the functions they speak of, or in modules of their own (`atomicity_laws`,
`resource_usage`, `pta::laws`, `mir_to_pn::laws`).

## What is trusted

The topology of the state graph is a `petgraph` graph and short lists of numbers
are `smallvec` lists; their operations are declared with contracts that are
believed, each with a comment that says what it claims. The same holds of how the
standard library prints a string with quotes and appends a character.
