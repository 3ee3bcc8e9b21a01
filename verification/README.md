# Roofline

A cost-based optimizing compiler for tensor programs, built like a query engine, and verified with
Verus.

A program such as attention has many equivalent forms. Roofline searches them with an e-graph,
scores each with a physical cost model, extracts the cheapest, lowers it to a kernel, and records
measurements against claims that were committed beforehand. The cost model is a pluggable set of
lower bounds on wall-clock time, and the cost of a plan is its slowest resource.

- `src/` is the verified library. `src/lib.rs` lists the modules. The laws of the library as a whole
  are public proof functions, most of them in `laws.rs`, `plan_laws.rs`, `shape_laws.rs`,
  `meaning.rs`, `kernel_laws.rs`, `attention_laws.rs` and `ledger_laws.rs`.
- `tests/` runs the library, with the e-graph library `egg` linked.
- `app/` is the `roofline` command around it: arguments, files, JSON, clocks and floating point.

Times are exact fractions, so comparisons have no rounding error. The kernels are generic over the
arithmetic: their contracts fix which operations are done, and in which order, and `app/` runs them
in single precision.

What is trusted: the contracts of the calls into `egg` (`saturate.rs`) and of the clock
(`ledger.rs`). Each says in its comment what is claimed of the outside function.
