# graph_safe_compare

Equivalence predicate that can handle cyclic, shared, and very-deep graphs,
following the paper "Efficient Nondestructive Equality Checking for Trees and
Graphs", with recursion that need not use the call-stack and with multi-way
comparison that can give an ordering to graphs.  Written in Verus: the
verifier checks every function of the library, proves it free of panics and
overflow, and proves it against its contract where it has one (all the public
entry points have one).

## Layout

- `src/lib.rs`: the `Node` trait, which is what a type must provide (identity,
  edges, comparison of its own values), and the `Cmp` trait of comparison
  results.  Each `Node` has a mathematical model (its `spec_*` functions) that
  the contracts speak of.
- `src/generic/`: the central algorithm (`equiv`), parameterized by a descend
  mode and a recursion mode; the records of equivalence classes
  (`equiv_classes`, a weighted union-find with path compression); the
  precheck-then-interleave variation; and `results`, the proved meaning of the
  results of every variation.
- `src/basic`, `src/cycle_safe`, `src/deep_safe`, `src/wide_safe`,
  `src/robust`: the premade variations, each safe for its shapes of graphs.
- `src/alt/`: an earlier variation with its own node trait and its own record
  of equivalence classes.
- `src/tests_utils/`: node types and shape makers used by the tests.
- `tests/`: the tests, which run the library on concrete graphs.
- `app/`: what cannot be verified: reading sizes from the environment, and
  identities taken from addresses.

## Main proved properties

- Every variation reports an inequivalence only where it found one: the
  result is the comparison of distinct counterparts reached by the same
  descended path of edge indices from both roots, so the graphs are not
  equivalent.
- Nodes with the same identity are immediately equivalent.
- A complete traversal (no limit, on the call-stack or with a stack or a
  queue) decides equivalence: its result is equivalent exactly when every
  descended path reaches counterparts that are the same node or compare
  equivalent, ignoring their descendents.
- The interleave of `cycle_safe` and `robust`, which records counterparts in
  equivalence classes and skips those already recorded, decides the same
  equivalence, also for cyclic graphs (`generic::cycle_results`), when nodes
  reachable from the roots with the same identity are the same node and the
  comparison ignoring descendents behaves as an equivalence on them.  This is
  what it gives when it completes: the entry points require completion.
- Every variation completes on graphs whose descended paths are bounded, as in
  finite acyclic graphs, whatever its recursion mode and descend mode
  (`results::lemma_bounded_depth_terminates`, and
  `alt::results::lemma_alt_bounded_depth_terminates`); there the complete
  traversals on the call-stack, with a stack and with a queue agree
  (`results::lemma_complete_traversals_agree`).  On cyclic graphs the
  interleave completes or not depending on the random numbers that it draws:
  with a generator that keeps drawing 0, a node with 41 leaf edges and an edge
  back to itself, compared with a copy of it, makes it recurse for ever, on the
  call-stack and with the queue alike
  (`cycle_results::lemma_interleave_may_not_terminate`; for `src/alt/`,
  `alt::results::lemma_alt_interleave_may_not_terminate`).  So completion on
  cyclic graphs is what the entry points require, not what they promise.
- The earlier variation in `src/alt/` decides the same equivalence too
  (`alt::results`), although its record of classes can split a class.
- With nodes whose comparison ignoring descendents is an order, the ordering
  that `basic::equiv` gives to graphs is antisymmetric and transitive
  (`generic::order_results`).
- Limiting a traversal only aborts it: the limited variation aborts exactly
  when its limit is less than the number of pairs of counterparts that the
  unlimited one traverses, and otherwise gives the same result
  (`results::lemma_limit_law`).
- The traversal with a stack follows the one on the call-stack, in depth-first
  preorder, and gives the same comparison value (`stack_results`).
- The iteration orders: an edges iterator yields the counterpart edges in
  increasing index order, the stack yields the most recently saved iterator's
  first, and the queue the earliest saved iterator's first
  (`equiv::lemma_edges_iter_order`, `vecstack::lemma_stack_order`,
  `queue::lemma_queue_order`).
- The union-find merges exactly the two classes of the keys it is asked about;
  after any sequence of calls, two keys are in the same class exactly when the
  equivalence closure of the pairs asked about relates them
  (`equiv_classes::lemma_same_class_sequence`).
