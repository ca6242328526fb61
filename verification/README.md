# renormalization_agent

Renormalization-group tools for multi-scale analysis of agent behaviour,
written in Verus.

`src/` is the verified library. It is generic over the sample type and
proves the discrete side of the renormalization group:

- `scale`: cutting data into full blocks (`apply_blockwise`), decimation
  (`decimation_apply`), the transform descriptors and the
  insufficient-data rule; laws that the blocks tile the data up to a
  remainder shorter than a block and that decimations compose.
- `agent_scale`: the multi-scale map, whose invariant keeps the scale
  factors multiplicative, bounded by the initial tick count, and the
  observables keyed by name.
- `flow`: RG flows with one beta function per coupling, Euler trajectories,
  divergence reports, fixed-point search, and the law that trajectories
  concatenate.
- `observable`, `invariants`, `error`, `text`: observables and their
  classification, violation filtering, error values and their exact text.

The arithmetic on `f64` samples (means, Haar coefficients, variances,
Euler updates, Newton steps, stability analysis) is handed to the library as
closures. `app/` supplies it for `f64` data, together with the serde forms of
the library's types.
