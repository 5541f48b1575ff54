# alkaidsd

A solver for the split delivery vehicle routing problem: every customer's
demand is delivered by one or more vehicles of a common capacity, and the
total travel cost is minimised.

The library under `src/` is verified with Verus:

- `instance`, `solution`, `solution2`, `route_context`: the problem data, the
  pool of linked slots that holds routes, and the per-route bookkeeping.
- `construction`, `split_reinsertion`, `repair`, `sdvrp`: building a first
  solution, putting removed customers back with split deliveries, and
  merging repeated visits of a route.
- `intra_operator`, `inter_operator`: local-search moves within a route and
  between two routes, with the caches of evaluated moves.
- `solver`: the descent within routes, the randomized variable
  neighbourhood descent across routes, and one step of the search
  (perturb, descend, accept, record the best).
- `problem`: the interface of a routing problem variant, implemented for
  the split delivery problem.
- `split_windows`: sliding windows of three items over a chain cut into
  slices.
- `acceptance_rule`, `ruin_method`, `sorter`, `random`, `delta`, `utils`,
  `distance_matrix_optimizer`: the remaining parts of the search.
- `text`: a solution written out route by route.
- `instance_file`: the text format of instances (header, demands,
  coordinates), read from bytes.
- `chain`: sequences of linked slots and the loads they carry, used by the
  proofs of construction and repair.

`app/` is the command-line runner: argument and file handling, the clock
and the listener around the search steps, and the parts that work with floating-point numbers (Euclidean
distances, simulated annealing, weighted sorter choice, string-removal
ruin).

`tests/` exercises the library on small instances.
