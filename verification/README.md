# koru_lambda_core

A minimal axiomatic substrate for distinction theory, written in Verus.
One operator, `synthesize`, builds a content-addressed graph from two
primordial distinctions; projections read that graph back; replay rebuilds
it from its parentage; reference subsystems (a batch validator, batch
commitments, a compactor, network and runtime events) sit on top as local
causal agents.

## Layout

- `src/` — the verified library. Every executable function carries a
  contract over mathematical models (`EngineView`, a map from 16-byte ids
  to parent pairs; `Seq`/`Set`/`Map` views of collections). The laws of the
  substrate (commutativity, irreflexivity and saturation of synthesis, the
  replay and restore round trips, determinism of canonicalization and of
  batch validation, the commitment round trip, the cache bound) are public
  proof functions.
- `src/bindings.rs` — the trusted boundary: the outside crates (`dashmap`,
  `sha2`, `hex`, `lru`) behind wrappers whose contracts are stated, not
  proved.
- `tests/` — executable tests against the compiled library.
- `app/` — ordinary Rust around the library: serde wire forms with their
  conversions, the `std::hash::Hasher` form of the identity hasher, and
  `Display`/`Error` renderings of the error types.
