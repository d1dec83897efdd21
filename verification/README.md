# ext

The combinatorial and bookkeeping core of a resolver for Ext over the Steenrod algebra at the
prime two, written in Verus: the public functions in `src/` carry contracts that the verifier
checks (small private helpers only where a caller needs them), and the laws the library relies
on are stated and proved as proof functions.

## Layout

- `src/motivic/` — linear algebra over $\mathbb{F}_2[\tau]$ (`f2tau`: degrees, products,
  division with remainder, reduction modulo a submodule, Smith normal form and its invariant
  factors), the $\tau$-module structure of a bidegree and the weight-capped coboundary
  (`cohomology`), generator weights and the τ-powers of δ (`weights`), the decisions of the
  τ-adic lift of a cell (`tau_lift`), motivic products and Massey cosets (`massey`), the
  direction of the deformation spectral sequence (`deformation`) and the byte format of the
  lift cache (`persist`).
- `src/nassau/` — Milnor subalgebras (names, top degrees, the sequence of subalgebras, the
  choice of the largest one in a vanishing region, signatures and their enumeration, save
  forms) and the dependency graph and scheduler of a stem computation (`depgraph`), with the
  proof that driving the scheduler dispatches every node.
- `src/save.rs` — kinds of saved data, shard coordinates, group paths, the byte form of the
  commands of a Nassau quasi-inverse.
- `src/chain_complex.rs` — the fingerprint hash, Euler characteristics, dimension charts and
  the stem order of the bidegrees of a complex.
- `src/module_spec.rs` — the grammar of module specifications (`name[shift]@algebra`).
- `src/lift.rs` — the outcome of preparing a lift step.
- `src/bytes.rs`, `src/utils.rs` — little-endian fields (through `byteorder`) and the small
  text helpers.
- `app/` — logging, environment, file and thread plumbing around the library.
- `tests/` — the tests, run against the compiled library.

## What is not here

The resolution itself and what is built on it — the minimal resolution and its Nassau variant,
chain maps and homotopies, tensor and Hom complexes, products and Massey products in Ext, the
secondary (d₂) machinery and the deformation spectral sequence — work throughout on the
matrices, vectors, free modules and spectral sequences of the project's own crates for finite
fields, Steenrod algebras and spectral sequences. Those crates are not available to this
build, so that linear algebra is not part of the library. What stands here is the logic around
it that works on plain values: the scheduling of a stem computation, the choice of Milnor
subalgebras, the byte forms of saved data, the F₂[τ] linear algebra of the motivic module
structure, weights, the decisions of the τ-adic lift and the Massey cosets.
