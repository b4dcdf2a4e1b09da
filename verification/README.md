# crpg-core

Foundation types for a deterministic role-playing simulation, written in
Verus: every operation carries a contract over a mathematical model of its
type, and Verus proves the code against it.

- `src/entity.rs`: `EntityId` and `GenerationalArena`, with the arena's
  invariants (ascending iteration, lowest-index reuse, dead ids stay dead,
  generations never wrap, `len` counts live entries) and its checked loading
  from a serialized form.
- `src/fixed.rs`, `src/decimal.rs`: `Fx16_16` saturating fixed-point
  arithmetic, and its exact decimal text with the proof that printing and
  parsing round-trip.
- `src/rng.rs`: PCG32 streams and the seeded generator of named streams.
- `src/intern.rs`: string interning over `indexmap::IndexSet`, reached
  through a few trusted wrappers.
- `src/time.rs`, `src/ulid.rs`: time counters and ULIDs.
- `src/error.rs`, `src/text.rs`: the error type and text building.

`app/` holds the serde and `std::error::Error` adapters, which Verus does not
see; `tests/` exercises the library with concrete values.
