# cannon_core

A native engine for typed scalar policies, written in Verus: every function of the
library is proved against its `requires`/`ensures` contract, except four small wrappers
of std calls (an atomic store, `Arc::clone`, `Arc::ptr_eq` and `String::push`), whose
contracts are trusted.

- `src/lexer.rs`: the lexical grammar as spec functions, and the lexer proved to follow it.
- `src/syntax.rs`: the grammar and typing rules as spec functions, and the parser and type
  checker proved to follow them, into a validated expression arena whose invariant is that
  it is exactly what its source compiles to.
- `src/execution.rs`: the evaluator, with traces, observation budgets and cooperative
  cancellation; its results are proved equal to a recursive denotation of the arena, and
  its stops (step, depth, event, text and integer-range limits), with the steps and events
  taken before them, to a budgeted one.
- `src/inputs.rs`: input schemas and the validation of bound values.
- `src/policy_review.rs`: review of a candidate policy against a baseline with preserved cases;
  whether a review fits its cumulative event and text budget is specified case by case, and
  each recorded example carries the result that evaluating it on its own gives.
- `src/project.rs`, `src/graph.rs`: module-bounded policy projects, dependency order and
  eager dataflow execution; compiling a project is specified stage by stage, down to the
  code and subject of each refusal, and a compiled project holds each policy's compiled
  source, the dependencies its links name, and the order that places the smallest ready ID
  first.
- `src/project_review.rs`: structural comparison of projects and preserved-case replay; an
  uncancelled review runs out of budget only where a case cannot complete on what remains.
- `src/session.rs`: versioned in-memory document sessions, proposals and guarded application.
- `src/report.rs`, `src/bound_report.rs`: JSON documents of runs and reviews.
- `src/collections.rs`, `src/text.rs`, `src/handles.rs`, `src/cancel.rs`: sorted ID maps
  and sets, text helpers, shared handles and the cancellation flag.

`app/` holds the two command-line clients (`cannon-native`, `cannon-policy`; the program
name selects one). `tests/` exercises the library from outside.
