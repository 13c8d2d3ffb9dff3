# l1tv

Exact, non-iterative L1-TV regularisation of one-dimensional signals,
verified with Verus. For a signal `y`, a slope `alpha >= 0` and optional
per-sample weights `w`, the solvers return a minimiser of

    alpha * sum_i d(x[i], x[i-1]) + sum_i w[i] * d(x[i], y[i])

where `d` is the absolute difference on the integers (`solve_l1_tv_real`) or
the shortest-arc distance on a circle of `2 * half_turn` units
(`solve_l1_tv_circ`). Both run a dynamic program over a candidate set (the
distinct signal values; on the circle also their antipodes), with an L1
distance transform computing each column in linear time. The result
minimises over all sequences of candidates, and, when the weights are
non-negative, over all integer sequences.

## Layout

- `src/` — the verified library.
  - `dist_transform.rs`: the L1 distance transform (lower envelope) with
    argmin tracking.
  - `dp.rs`: first-minimum search and back-pointer tracing.
  - `objective.rs`, `columns.rs`: the objective as spec functions and the
    column invariant of the dynamic program.
  - `candidates.rs`, `circle_candidates.rs`: the candidate-set theorems
    (every sequence is matched by one over the signal values that is no
    worse), which make the solvers globally optimal.
  - `real_path.rs`, `circle_path.rs`: the exact run of each dynamic
    program, which fixes each solver's output, ties included; the circle
    output is a function of the wrapped signal.
  - `real_valued.rs`, `circle_valued.rs`: the two solvers and the laws about
    them (agreement of both column methods, zero slope, steep slope, growing
    slope).
  - `sorting.rs`: distinct sorted values, over the standard library's sort.
- `tests/` — tests on concrete inputs, including exhaustive searches.
- `app/` — the Python extension module (`_core`) with the `f64` solvers.
