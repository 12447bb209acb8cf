# bloqade_lanes_search

Placement for neutral-atom move synthesis, verified with Verus. Given where the
atoms of an architecture are and which pairs shall perform a CZ gate together,
the library decides which entangling position each pair goes to, which atoms have
to get out of the way, and whether a configuration meets the goal: every pair at
a position, different pairs at least two grid steps apart, and no accidental CZ.

## Layout

| Module | Contents |
| --- | --- |
| `arch`, `lane_index`, `config`, `distance` | architectures, lanes, configurations, hop counts |
| `entangling`, `engine` | entangling positions and what else follows from an architecture alone |
| `goals`, `accidental` | goals of a search, accidental CZs |
| `hungarian`, `congestion` | least-cost assignment, spreading of load over word pairs |
| `costs`, `perturbation`, `rows` | the cost matrix, its perturbation, assignment of rows |
| `blockers`, `assignment`, `lookahead`, `repair` | assignment of a layer with blockers, with later layers, and its repair |
| `assignment_laws`, `placement_laws`, `agreement_laws` | what holds of every assignment |
| `loose_goal`, `solver` | plans for a search, cleanup after it, candidates in turn |
| `probe`, `measurement`, `tally` | how searches and repairs fare |
| `seqs` | sequences |

`app/` holds what is not verified: JSON, floating-point knobs, the search itself
and printed reports. Costs are whole numbers in the library; `app/` rounds them.

## What is trusted

The random numbers that perturb a cost matrix come from `rand`. The library
relies only on each of them being within the range that was asked for.
