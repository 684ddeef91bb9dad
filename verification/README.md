# beekem_regressions

Three regression scenarios for a continuous group key agreement (CGKA) tree whose
members change concurrently. The calls of each scenario, the values they are handed,
what a reply means, and how a sweep is judged and reported are verified in Verus. The
calls themselves are made on an implementation of the tree from outside.

* `src/` is the verified library.
  * `keys`: members and keys, drawn from a seeded generator.
  * `group`: a group of replicas as a plan of calls, with causal delivery as its
    invariant, and what each call is handed.
  * `run`: which call of a plan comes next, and what its reply means.
  * `concurrent_add_remove`, `concurrent_removals`, `stale_leaf_index`: the
    scenarios, each with its sweep over seeds, its verdict and its report.
  * `leaves`, `rows`: a model of how a tree keeps its leaves, and where the
    scenarios' changes meet in it.
  * `payload`, `sweep`, `text`: panic messages, seeds and text.
* `app/` runs the plans against an implementation of the tree, handed in as a trait.
* `tests/` runs the library.
