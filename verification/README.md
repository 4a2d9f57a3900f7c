# eevee

A NEAT (NeuroEvolution of Augmenting Topologies) toolkit whose discrete core is verified
with Verus.

`src/` is the verified library:

- `genome` — innovation ids (`InnoGen`), connections, and the `NNOrganism` genome with its
  topology policies (recurrent, or acyclic through a cycle search): creation, growth,
  bisection, connection mutation and crossover reproduction.
- `crossover` — disjoint/excess counts, aligned gene pairs, and crossover of two connection
  lists.
- `reproduce` — a specie's offspring: champion, mutated copies, mutated crossover children.
- `network` — which weights sit where in a network's matrix, and the topological evaluation
  order of a feedforward network.
- `random` — event probabilities and picks, seed mixing, and the WyRng generator.
- `serialize` — the header line of serialized files.
- `tui` — the grid layout of a genome's neurons for drawing.

Connection parameters are `f64` values carried as their bit patterns; the library copies them
but never computes with them.

`app/` holds what runs on floating point or talks to the system: network stepping and
activation, parameter perturbation, compatibility distance, speciation, the evolution loop,
serde formats and files, seeds from the system, and drawing with ratatui.
