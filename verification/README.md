# lcmh

A Metropolis-Hastings search over the local complementations of a graph state, as a
library verified with Verus.

- `src/graph.rs`: the graph as one neighbour set per node, its operations (edges, degrees,
  local complementation) and the laws they obey.
- `src/cabaliser.rs`: conversion to and from the bit-packed adjacency matrix of Cabaliser.
- `src/search.rs`: the moves of the search: proposing a local complementation at a
  random node and settling it.
- `app/`: the C interface and the search loop, whose cost function and acceptance test
  work on floating-point numbers.
