# stateright refinement mappings, verified

A library for checking that one transition system refines another, with
its logic verified by Verus.

- `model`: the `Model` trait (initial states, enabled actions, transitions,
  properties, an optional SVG drawing of a run), `Property`, `Path`, and
  `next_states`.
- `refinement_mapping`: the `RefinementMapping` trait (auxiliary state,
  mapping, observable interface), `RefinementModel`, whose states pair a
  concrete state with its image, and its `check_simulation` property, which
  checks weak L-simulation on the observable interface one step at a time;
  also the drawing of a run in three layers, and the laws of the check.
- `checker`: a breadth-first search of the states of a model that records
  the first counterexample or example of each property, with the laws of
  what a finished search covers.
- `svg`, `text`: the pieces of the drawing and HTML escaping, with the
  laws that escaping loses nothing and leaves no markup.
- `tags`: counting the node tags of a drawing.

The spec functions of `Model` and `RefinementMapping` describe what their
methods return; implementations that opt in with `obeys_model_spec` /
`obeys_mapping_spec` get the library's contracts, others run unverified.
