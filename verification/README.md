# qca_bistable

A simulation of quantum-dot cellular automata by the bistable model, verified with
Verus.

- `src/` is the library. Whoever runs a simulation hands it a `Numerics`, and contracts
  speak of the `Arithmetic` that describes it: results are fixed for every number
  format in which each step is a function of its arguments.
  - `numerics`: number formats, and what they compute. `rounding` says what they
    keep though they round, `exact` when they do not, and `reals` has products of real
    numbers.
  - `objects`, `cell_map`: cells, layers, architectures, and maps over cells.
  - `settings`, `options`: what can be set, and its defaults.
  - `design`: what a design file holds.
  - `bistable`: the model. `kink` has the coupling of two cells, `initiate` takes over
    a design, `pre_calculate` starts an iteration, `calculate` lets a cell follow its
    neighbours, `persistence` writes and reads settings, and `checks` tells
    beforehand whether a call can be made.
  - `bistable::laws`, `bistable::design_laws`, `bistable::symmetry`,
    `bistable::geometry`, `bistable::energy_laws`, `bistable::response_laws`,
    `option_laws`: what holds of the model as a whole. Where that rests on the number
    format, a law says on what.
- `app/` runs the library on `f64`, and keeps settings and designs as JSON.
- `tests/` runs the library on `f64`.
