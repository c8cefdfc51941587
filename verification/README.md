# heuristic_solver_eweidner

A heuristic solver for one-sided crossing minimisation (PACE 2024): the
vertices of one layer of a bipartite graph are fixed, and the other layer is
ordered so that few edges cross.  The solver builds the penalty graph of
Sugiyama et al., condenses its strongly connected components, sorts them
topologically, orders the vertices inside each component by a feedback arc set
heuristic (Eades et al., with Baharev's key) or by the mean heuristic, and
improves the blocks by local search.

The library in `src/` is verified with Verus:

- `problem` reads an instance from its lines;
- `interconnection` holds the sorted neighbour lists, counts crossings and
  computes the median and mean heuristics;
- `crossing` defines crossing numbers and the cost of an order;
- `pengraph` builds the penalty graph, condenses it, sorts it topologically and
  computes the Eades orders;
- `single_float` computes Baharev's key exactly as single-precision
  arithmetic rounds it, with integers;
- `strong_components` finds the strongly connected components (Kosaraju);
- `condensed_order` proves what the topological sort needs of the condensed
  graph, and that the Eades order lists every vertex once;
- `heuristic_solver` holds the local searches and the solver itself;
- `input_check` decides whether an instance can be handed to the solver;
- `permutation` has facts about rearranged lists;
- `interrupt` reads the termination flag and the memory in use.

`app/main.rs` reads an instance from stdin, installs the signal handlers and
the counting allocator, and prints the order found.
