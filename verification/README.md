# mincon

The structural core of a nonlinear optimization toolkit, written in Verus
and verified: Verus checks every function in `src/`, and every one but the
two shared evaluation counters (whose value other threads change) carries a
contract stating what it returns.

## Layout

- `src/sparsity.rs`: CSC sparsity patterns. Construction checks the
  invariants and names the first one broken; triplets are sorted and
  deduplicated; the transpose is exact, and transposing twice gives the
  pattern back.
- `src/coloring.rs`: greedy distance-1 and distance-2 (star) colorings of
  the column intersection graph, for compressed finite differences, and the
  check that no two columns of a group share a row. Each coloring is stated
  exactly (each column takes the lowest color no earlier related column
  holds) and shown to be unique.
- `src/ordering.rs`: fill-reducing orderings. Reverse Cuthill–McKee is
  specified as the reversal of the one breadth-first order that starts each
  component at its lowest-degree vertex and visits neighbours by degree; the
  inverse of a permutation, and its involution.
- `src/ldlt.rs`: the symbolic analysis of a sparse `LDL^T` factorization:
  permuted upper pattern with its whole diagonal, where each entry lands,
  the elimination tree (each parent the first column whose row subtree holds
  the node, shown to be unique) and the column counts of `L`.
- `src/kkt.rs`: the transpose of a pattern with the map of where each value
  moves (a permutation of the value slots), and the structure of the
  primal-dual KKT system: the assembled pattern of Hessian, Jacobian, slack
  and diagonal blocks, its symbolic analysis, the pivot signs and the
  position of every block entry, determined by the inputs alone.
- `src/fd.rs`: the bookkeeping of finite differences: the column coloring,
  computed once when coloring is on and the Jacobian structure is known;
  whether central differences are in use; and what a Jacobian
  costs in model evaluations.
- `src/frontend.rs`: method names read ignoring case, the option names
  with their aliases and refusals, the constraint types, the exit-flag table,
  and the lower-triangular Hessian layout of the scripting front end.
- `src/error.rs`, `src/result.rs`, `src/options.rs`, `src/problem.rs`,
  `src/qp.rs`, `src/sqp.rs`, `src/detect.rs`, `src/filter.rs`: the shared
  vocabulary of errors, exit flags, limits, option kinds and capabilities,
  with exact messages.
- `tests/`: runtime tests of the library.
- `app/lib.rs`: what rests on floating point or on traits the library cannot
  carry: `Display` and `std::error::Error` for the error types, densities,
  compression and fill ratios, and scattering values through a map.
- `app/linalg.rs`: the numeric side of the sparse linear algebra: matrices
  with `f64` values and the numeric `LDL^T` factorization along the
  structure that the library's symbolic analysis proves.
- `app/filter.rs`, `app/bfgs.rs`, `app/qp.rs`: the floating-point
  algorithms of the solvers: the filter line search, the damped BFGS
  Hessian approximation and the dense active-set QP solver.
