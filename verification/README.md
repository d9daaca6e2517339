# evolution_ternary

Evolutionary dynamics on ternary strategy spaces: agents carry strategy vectors over
{0, 1, 2}; a population evolves by selection, crossover and point mutation, and is
watched for speciation and convergence.

## Layout

- `src/` — the verified library:
  - `population.rs`: the xorshift64 generator `SimpleRng` and its state model,
    strategy validation, seeded random strategies, and the ordering of agents by integer
    fitness keys (stable descending order, best and worst agent).
  - `selection.rs`: tournament selection over fitness keys.
  - `mutation.rs`: point mutation, single-point and uniform crossover, autofill mutation;
    random decisions are taken against integer draw thresholds (`MutationPlan`).
  - `engine.rs`: the breeding step of a generation (elitism, crossover, mutation).
  - `species.rs`: species classification and the species tracker.
  - `convergence.rs`: the plateau length and the convergence verdict.
- `tests/` — tests of the library.
- `app/` — the floating-point side: agents and populations with `f64` fitness,
  environments and fitness functions, roulette and rank selection, rates turned into
  draw thresholds, the convergence detector's history, and the evolution engine's loop.
