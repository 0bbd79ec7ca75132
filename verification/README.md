# Ternary pheromone market

Load balancing for a ring of GPU nodes without a central scheduler. Each node emits demand
and supply pheromones into grow-only counters (G-Counters), gossips them to its two
neighbors, and runs a 4-8-4-3 network with weights in {-1, 0, +1} to decide whether to hand
out work, to take work or to idle. A node that hands out work pays a fee of ten tokens to the
node that takes it. A node needs more than the fee to hand out work, and tokens to take work.

The library under `src/` is verified with Verus:

| module | contents |
|---|---|
| `gcounter` | `GCounter`; merging is commutative, associative and idempotent, and counters only grow |
| `pheromone` | `PheromoneMap` and `Gradient`; replicas that exchange what they know agree, and every node owns its slot |
| `trit`, `rng` | `Trit` and `Rng` (XorShift64), whose state never gets stuck at zero |
| `net` | `TritLayer`, `TritNet`, `Action`; dot products by adding and subtracting, decisions with ties going to idling |
| `rank` | single-precision numbers by their order |
| `agent`, `fleet` | `Agent` and `Fleet`: the ring, emission, gossip, tokens |
| `market`, `settlement` | the matching of a tick and its settlement |
| `gossip` | consensus after half a ring of gossip rounds |
| `soundness` | what every tick keeps: loads within [0, 1], tokens conserved and nobody out of them, no work without tokens |
| `history` | what any number of ticks keeps, and how knowledge spreads around the ring |

Loads and scores are single-precision numbers. Their arithmetic is done in `app/`, which
measures loads, evaluates the strategy networks and runs the ticks; the library takes the
results as ranks, integers that are ordered as the numbers are. A tick is three calls:

1. `Fleet::emit` with the signal of each agent,
2. `Fleet::gossip`,
3. `Fleet::tick` with the scores that each agent gives to its three actions, and with a
   forecast of the loads that a migration would lead to.

`tests/` runs the library, among others against a direct simulation in single precision.
