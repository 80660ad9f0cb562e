# greyjack

The verified core of a metaheuristic solver for planning problems.

`src/` holds the library, checked by Verus:

- `candidate` — candidate vectors and `(column, value)` deltas applied to them.
- `mover` — the six moves of local search (change, swap, swap edges,
  scramble, insertion, inverse) with per-group tabu lists.
- `tabu_moves` — tabu-aware moves that draw positions one at a time and apply
  plain moves as sequences of swaps.
- `move_laws` — laws relating plain and incremental moves and the tabu lists.
- `variables` — semantic groups of planning variables and their layout.
- `variable_names` — numbering and naming of the variables of entity groups.
- `columns` — how variables map to table columns, and the per-table data of a
  batch of samples and of their deltas.
- `facts`, `stream_def` — fact tuples, constraint-stream definitions and
  their retrieval ids, stream building, and key functions over fact tuples.
- `entity_index` — which fact and field each variable sets, the reverse
  index, grouping of deltas per fact, and following facts as they are
  replaced.
- `late_acceptance` — the scores of the last accepted candidates.
- `termination` — stopping once the best score has not improved for a while.
- `solver_setup` — the checks and the ring of agents set up before a solve.
- `random` — the random draws and hashed collections the moves use.

`app/` holds what stays outside the verified library: floating-point scores
and variables, the random choice among moves, score comparisons for
termination, and the closures that hash stream keys.
