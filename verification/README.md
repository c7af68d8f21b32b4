# threads_macro

Static deadlock detection for the `threads!` DSL: a set of statically declared
locks, and one block of code per thread. A thread block is walked to collect
the orders in which its paths acquire the declared locks; the orders of all
threads are accepted only when one global rank of the locks puts, in every
order, each lock below the lock acquired next (decided with Z3).

Layout:

- `src/orderings.rs`: lock orderings and their multiplicative combination.
- `src/ast.rs`: the part of a Rust expression the analysis reads.
- `src/analysis.rs`: the walk that extracts orderings and enforces the DSL's
  restrictions (no `Arc::clone`, no new mutexes, no indirect calls, `.lock()`
  on declared locks only, no binding of a lock to a new name, at most one
  lock reference per call, no `unsafe` blocks, supported expressions only).
- `src/syntax.rs`: parsing a block's text with `syn`, and the verified
  conversion of the syntax tree into the model of `src/ast.rs`.
- `src/solver.rs`: the lock-order constraints and their check with Z3.
- `src/decl.rs`: the lock declaration section, `{locks = {a(0), ...}}`.
- `src/dsl.rs`: the macro's decisions: argument kinds, the lock table, the
  orderings of each thread, the verdict.
- `app/lib.rs`: the token-level front end (`quote`, `proc_macro2`).
