# vi_rs

Verified core of a grid value-iteration planner for a mobile robot: the robot's
pose is discretised into cells `(x, y, heading)`, every action has a table of
probabilistic outcomes per heading, and value iteration computes the expected
cost-to-goal of every cell and the action that achieves it.

The library is written in Verus; every function in `src/` carries a contract
that Verus proves.

## Layout

- `src/params.rs`, `src/transitions.rs` — constants of the 16-bit model and the
  packed transition tables (pack/unpack round trip).
- `src/bitboard/` — word-packed 2-D and 3-D bitboards: set/test, popcount,
  AND/OR/complement, dilation, enumeration in storage order, conversion to and
  from boolean masks.
- `src/reference/` — the integer (`u64`) model: states, actions, the per-state
  Bellman update and the solvers:
  - `solvers/mod.rs`: full-sweep reference solver;
  - `solvers/frontier.rs`: 3-D and 2-D frontier solvers;
  - `solvers/block.rs`: block-refinement solver;
  - `solvers/fused.rs`: padded, penalty-fused layout;
  - `solvers/pad.rs`, `solvers/par.rs`: padded 2-D frontier solver, in
    Gauss–Seidel and in Jacobi rounds;
  - `solvers/par_unsafe.rs`, `solvers/fused_async.rs`: the asynchronous
    (in-place, alternating scan direction) frontier solvers on the padded and
    on the penalty-fused layout;
  - `solvers/settle.rs`: when a clamped solver stops, no cell can be lowered;
  - `solvers/greatest.rs`: the solvers that only lower costs through the
    clamped update end, when they converge from a start with costs clear of
    `u64` wrap-around, at the greatest state below the start that cannot be
    lowered; so the Jacobi, the asynchronous and the fused asynchronous 2-D
    solvers agree (`lemma_par_gs_agree`, `lemma_par_fused_agree` in
    `solvers/mod.rs`);
  - `solvers/pad_settle.rs`: from a start where no cell lies below its
    clamped best cost, the padded Gauss–Seidel solver never raises a cost and
    a converged run ends with the costs of the same greatest settled state, so
    it agrees with the Jacobi solver on every cost (`lemma_par_pad_agree`);
    where moreover every free cell starts reached, the unclamped 2-D frontier
    update is the clamped one, so that solver agrees too
    (`lemma_par_frontier2d_agree`);
  - `solvers/sweep_settle.rs`: under the same start, with every free cell
    reached below the reference threshold, a converged full-sweep reference
    run ends at that greatest settled state (`lemma_par_reference_agree`);
  - `solvers/frontier_settle.rs`: likewise for the 3-D frontier solver, whose
    converged runs then agree with the Jacobi and with the reference solver
    (`lemma_par_frontier3d_agree`, `lemma_reference_frontier3d_agree`), as
    does the outcome-pruned solver when it prunes nothing (`lemma_par_topk_agree`);
  - `solvers/sparse.rs`: sparse heading-mask solver; it never undercuts the
    Jacobi solver (`lemma_sparse_not_below_par`);
  - `solvers/sparse_settle.rs`: a converged sparse run ends at the same
    greatest settled state, so it agrees with the Jacobi solver
    (`lemma_par_sparse_agree`);
  - `solvers/compact.rs`: block store and column updates of the out-of-core
    variant, and its output sinks;
  - `solvers/band.rs`: convergence of one value band of the out-of-core
    variant, in Jacobi or in in-place rounds;
  - `solvers/compact_solve.rs`: the out-of-core driver: value bands, column
    finalization into a sink, lazy block building and eviction;
  - `solvers/topk.rs`: outcome-pruned frontier solver;
  - `solvers/priority.rs`: single-cell relaxation and reverse transitions.
- `src/algorithm/` — parameters and helpers of the 16-bit frontier family
  (outcome pruning, coarse heading layers, passable masks); the 16-bit
  per-cell backup and the runs built on it are not part of this library.
- `src/pgm.rs` — binary PGM (`P5`) parsing and the `key: value` lines of a map
  YAML file.
- `src/node/` — solver selection by name and the value-to-occupancy bridge.
- `app/` — file I/O, floating-point map metadata and `ndarray` conversions
  around the library.
- `tests/` — tests of the library.
