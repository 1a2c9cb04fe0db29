# crount

A model counter for CNF formulas in DIMACS form, written in Verus. The library
(`src/`) holds the parts of the counter whose behaviour is stated and proved:

- `trail` — the store of reversible values (kept by `search_trail`), with save
  and restore;
- `formula` — variables, literals, clauses and the problem that holds them,
  their watch lists and occurrence lists, and the clean-up after preprocessing;
- `parser` — reading the clauses of a DIMACS text;
- `propagator`, `preprocess` — unit propagation, and its first run from the
  unit clauses;
- `watching`, `activity` — the watched-literal invariant, under which a
  propagation without conflict ends at a fixpoint, and how clauses are set
  inactive;
- `models` — what values mean for the formula: models, the literals that a
  clause forces, and the number of models;
- `branching`, `solver` — the choice of the next variable, the opening and
  restoring of the branches, and the counting search itself;
- `args`, `common`, `fxmap`, `text` — options, results, position maps, and
  decimal text.

`app/` is the command line: it reads the options and the file, and runs the
library. `tests/` exercises the library on concrete formulas.

## What the count is

The count is that of all the models of the formula over all its variables: a
variable that preprocessing leaves unset and that occurs in no active clause
doubles the count, and a formula that preprocessing satisfies entirely has as
many models as its unset variables allow (not zero). For this reason the search
counts on the problem as preprocessing leaves it, without first removing the
satisfied clauses and the variables they held.

The count is made by branching, one variable at a time, with no split into
independent parts of the formula and no cache of counts; the memory limit,
caching and statistics options are accepted and have no effect on it. When the
time limit is reached the count is a lower bound, and the search says so.
