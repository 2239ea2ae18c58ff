# fracture_core

Destruction of two-dimensional bodies that are made of voxels.

An asset describes a body: which cells of a grid are filled, how the cells are grouped into support
nodes, how the nodes are bonded, and a hierarchy of chunks over the nodes. A family is a body at run
time. Damage and stress wear its bonds, nodes and chunks; where bonds break, actors split into
fragments. Everything is deterministic: commands have a place in an order, state has a digest, and
snapshots give back what was saved.

## Layout

- `src/` is the library. Every function has a contract that Verus proves.
  - Numbers: `rounding`, `scalar`, `arithmetic` and `truncation` are single-precision arithmetic on
    bit patterns, `geometry` the vectors and grid coordinates.
  - Collections: `idmap` (ordered tables and sets), `order` (stable sorting), `reach` and
    `components` (connected parts).
  - Assets: `occupancy`, `asset`, `authoring`, `bonding`, `hierarchy`, `validation`, `soundness`.
  - Families: `structure`, `actor`, `family`, `access`, `commands`, `fracture`, `split`,
    `connection`, `repair`, `digest`, `replay`.
  - Stress: `stress_graph`, `stress_solve`, `stress`.
  - Snapshots: `codec`, `asset_codec`, `asset_read`, `family_codec`, `family_entries`,
    `family_payload`, `snapshot_check`, `snapshot`.
  - `host` holds the decisions of a world of moving bodies: what is accepted, what a body is made
    of, how it comes apart, what a query meets. The engine that moves the bodies is not part of it.
  - `laws`, `stress_laws`, `hash_laws` and `digest_laws` hold what follows for the library as a whole.
- `app/` is the host: it runs a physics engine and hands plain values to the library and back. The
  engine is a trait; with the feature `rapier` it is implemented over `rapier2d`, so that the
  library itself depends on no engine.
- `tests/` runs the library on given values.
