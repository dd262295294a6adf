# ternary_walk

Random walks whose steps are -1, 0 or +1 (simple, biased, reflecting,
absorbing, with momentum), a walk on a two-dimensional ternary grid, a
walker on a row-major grid addressed by cell index, and statistics over the
history of a walk: extremes, zero crossings, time in each ternary state,
first passage times and return times. Each function carries a contract that
Verus proves.

Layout:

- `src/common.rs`: the abstract state of a one-dimensional walk and the
  helpers that turn numbers into ternary steps.
- `src/simple.rs`, `src/reflecting.rs`, `src/absorbing.rs`,
  `src/correlated.rs`: the one-dimensional walks.
- `src/spatial.rs`: the walk on a two-dimensional grid of ternary cells.
- `src/grid.rs`: the walker on a grid addressed by cell index, random walk
  paths and the histogram of where walks end.
- `src/stats.rs`, `src/passage.rs`: statistics over a history.
- `app/lib.rs`: the statistics that need floating point (mean squared
  displacement, the anomalous diffusion exponent, mean and variance,
  occupation fractions, mean return time), built on the verified integer
  statistics.

Randomness comes from a caller-supplied source (`FnMut() -> u32`, or
`FnMut() -> u8` for the grid walker). The contract of a function that draws
from it says what holds for every value drawn: the outcome is what the exact
step functions give for some sequence of draws that the source can return.
