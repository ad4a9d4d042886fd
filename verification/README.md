# synthetic_core

A deterministic stock-and-flow simulation core with fixed-point resource accounting,
verified with Verus.

## Layout

- `src/network/` — the simulation network.
  - `types.rs`: `ResourceAmount` (64-bit micro-units) with checked, saturating and
    ratio arithmetic.
  - `components.rs`: storages, converters, flow edges, packets, relocation tags.
  - `resources.rs`: recipe registry, demand/allocation buffers, error log.
  - `world.rs`: the `World` (entity allocator and component tables) and `NetState`,
    the mathematical state the tick pipeline reads and writes.
  - `demand.rs`, `allocation.rs`, `transit.rs`, `conversion.rs`, `systems.rs`: the tick
    phases (demand polling with backpressure, pro-rata contention, latency queues,
    converters, relocation) and the whole tick, each with an exact specification.
  - `laws.rs`: mass conservation of a tick and of any number of ticks, when every edge is
    lossless, no packet in flight is negative, and every converter that runs is at full
    health with a balanced recipe (non-negative amounts, inputs totalling outputs, no element
    named twice among the inputs or among the outputs).
  - `clean.rs`: with well-formed storages, distinct edge entities and such converters, every
    tick logs no error, so each call of the tick returns `Ok`.
- `src/generator.rs` — the standard 40-resource, 200-converter economic scenario, with its
  determinism stated as a law.
- `src/simulation.rs` — snapshot records of a world, and worlds rebuilt from records.
- `src/spatial.rs` — astronomical bodies and surface nodes on H3 cells (through `h3o`).
- `src/text.rs` — decimal formatting used by messages and display strings.
- `app/` — the unverified shell: floating-point Keplerian orbits, the session with its
  clock, serialisable records (serde) and the desktop command handlers.

## Representation choices

- The entity-component world is a `World` of plain component tables (one vector of
  `(Entity, component)` rows per component), so that every phase of the tick can be stated
  and proved over sequences. `World::wf` says each table holds at most one row per entity,
  and only rows of spawned entities; `spawn_*`, `insert_*` and the tick keep it.
- A flow edge always carries its packet queue (an `EdgeRow` holds both); an edge without a
  queue is not representable.
- Maps keyed by entity (the in-flight tally of demand polling, the per-source grouping of
  contention) are ordered association lists: `Entity` is a struct of this crate, for which
  the standard library's hash maps have no key model that the proofs could use.
- The storage topology of the scenario generator, keyed by resource id, is an ordered
  association list too: edges are spawned in first-insertion order of the resources, so
  generation is deterministic; a hash map's iteration order changes from run to run.
