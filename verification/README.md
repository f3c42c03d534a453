# thrml

Discrete probabilistic graphical models for block Gibbs sampling, verified
with Verus.

- `src/` is the verified library: nodes and blocks, dense row-major tensors
  and their layout operations (row selection, stacking, tiling, moving an
  axis), the block spec that places block states in global state arrays,
  weight gathering by categorical states, spin products, discrete
  energy-based factors and the interaction groups they contribute, and the
  parameters of the conditional samplers. `src/laws.rs` states properties
  that relate several operations, such as reading a block back from the
  global state.
- `app/` holds what works on floating-point numbers and random draws: the
  conditional samplers' parameters and draws, the Gumbel-max categorical
  sampler, factor energies, random keys and fresh node identifiers.
- `tests/` exercises the library on concrete values.
