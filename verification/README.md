# mergex

A merge tree. Every writer has a node of its own; the aggregate is assembled only
when someone asks for it.

`merge` and `identity` form a commutative monoid: folding `identity` into a value
leaves it unchanged, and the fold is associative and commutative. A node's data is
the delta not yet folded into its father, and goes back to `identity` the moment it
is folded upward.

## What is proved

- A read returns the node's data with everything pending below folded in, deepest
  first, and leaves nothing pending there.
- Nothing is folded twice, and a read of any node takes nothing from the root.
- The store holds exactly the nodes that are linked: what is unlinked is freed.
- A read that runs step by step and alone makes of the tree what a read by its owner
  makes of it.
- A node that leads to a live handle is never unlinked, a dropped handle still
  delivers what it wrote, and a sweep keeps exactly the sons that have a handle or
  sons of their own.
- However the steps of any number of writers, readers and leaving workers are
  interleaved, no value that was folded in is lost or repeated, an overwrite replaces
  what its own node still owed and nothing else, every operation comes to its end
  unless sons keep being registered on its way, and once all of them are over a read
  of the root is exact.
- Whether a handle is given up or kept makes no difference to any later read, as long
  as the same is written. A handle is given up with `drop`; the end of its scope does
  not do it, because the count is in the tree.
- As long as only values of a set are written that the fold does not lead out of, no
  read ever returns anything else, whoever writes meanwhile.
- The fold need be a commutative monoid only on a set of values that it does not lead
  out of and that everything written is in. It need be callable only on the values
  that a read folds.

The interleavings are those of single touches: one flag, one count, or what one
lock guards. Memory orderings weaker than that are explored by `tests/shared.rs`
under the loom model checker.

## Layout

- `src/`: the verified library. `handle` is the tree for one owner at a time;
  `walk`, `climb` and `probe` are the same operations one touch at a time; `crew`
  runs them in any order; `laws`, `histories`, `steps`, `strides`, `ends`, `totals`, `runs` and
  `closed` hold what is proved of them together.
- `app/`: the tree that threads share, on real locks and atomics, driven by the
  library's walks.
- `tests/`: the tests.
