# room_topology

Rooms, doors and warps of a MUD read as a 1-dimensional complex, with its
invariants: connectivity, Betti numbers H₀/H₁/H₂ and the Euler
characteristic, the fundamental group as a free presentation, free reduction
of words, a breadth-first spanning forest of the doors, and a finite
unfolding of the universal cover.

The library under `src/` is written in Verus; every function carries a
contract over a mathematical model of its types and is proved against it.

- `room.rs`, `warp.rs`, `continuity.rs`: the cells and their views.
- `complex.rs`: the complex, moves through doors and warps, reachability,
  components, shortest paths, adjacency maps, the cyclomatic number.
- `homology.rs`, `fundamental.rs`: Betti numbers, π₁, words, spanning forest.
- `counting.rs`: the counting argument E + C ≥ V (with equality for a
  forest) behind the cyclomatic number.
- `unfold.rs`: the breadth-first unfolding of the universal cover (exits,
  then warps, lifts numbered per room), as a recursive specification, the
  code that builds it, and the proof that it is a tree whose edges follow
  exits and warps.
- `cover.rs`: the cover (the complex itself when π₁ is trivial, the
  unfolding otherwise), projection and navigation on it.
- `graph.rs`, `cells.rs`, `text.rs`: walks and breadth-first search on
  numbered graphs, the numbering of places, decimal text.

`app/` holds the serialisable (serde) forms of the types, their `Display`
forms, and the floating-point room properties.
