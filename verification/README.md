# matchlab

The matchmaking and bookkeeping logic of a simulator for competitive
matchmaking and rating systems, with its behaviour stated as contracts and
proved by Verus.

- `src/` is the verified library: the queue and parties, constraints on
  proposed matches, candidate generation, the batch, greedy, beam and
  random-sampling matchmakers, the decisions of the hub-and-spoke and
  skill-window matchmakers (region capacity, overflow blocks, matching
  within a window of compatible players), selection
  among candidates, stable orderings, Pareto fronts, the leaderboard,
  streak, queue-wait and convergence bookkeeping, population rounding and
  dynamics, time buckets, the optimization settings, and the step functions
  of an optimization run (which trial to evaluate next, with which point
  and seed, when to checkpoint, when to stop). Floating-point quantities
  (ratings, scores, remainders) enter it as integer order keys or as yes/no
  decisions.
- `app/` is ordinary Rust around it: the floating-point scoring, sampling,
  statistics, metrics and Gaussian-process numerics, the serde forms of the
  library's plain types, the matchmakers that dispatch to other
  matchmakers, and the loops that run an optimization study.
- `tests/` exercises the library on concrete inputs.
