# alg

A verified library for placing chains of virtual network functions (VNFs) in a k-ary fat-tree
data centre, and for the multi-objective search over such placements.

`src/` is verified with Verus:

- `fat_tree` — the sizes and numbering of the tree's five layers.
- `mapping` — shortest-path routing (`next_step`), the service chains read off a placement
  (`find_sequences`) and their multistage route graphs (`find_routes`, numbered breadth-first),
  with the laws that steps approach their destination and that a walk of a route graph visits
  each of its nodes once.
- `model` — route graphs and the counted walk over them (`iterate_route`).
- `operators` — solutions, operator traits and the feasibility test (anti-affinity, instance
  limits, every VNF placed).
- `constraint_aware`, `ca_operators` — intermediate solutions of services: balancing, their
  expansion into VNF placements (which respects anti-affinity under constraint handling and uses
  up each VNF's instance limit as it places), and the constraint-aware initialisation and
  mutation.
- `standard`, `previous`, `binary` — uniform and one-point crossovers, uniform draws, roulette
  draws and binary encodings.
- `round_robin`, `bfs`, `bfdsu`, `esp_vdce`, `instances` — placement heuristics over shuffled
  service instances.
- `evaluation`, `weights`, `args` — integer parts of the evaluations, the MOEA/D weight lattice
  and the run configuration.
- `random` — the calls into `rand`, with what is stated of them.

`app/` holds what works in floating point or with the outside world: the queueing models, the
evaluation operators, IBEA and MOEA/D, and the command line and configuration file.

`tests/` runs the library on concrete inputs.
