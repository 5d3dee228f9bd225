# lazy_signals

Lazy reactive signals for Bevy, verified with Verus.

States hold data; computeds memoize what a function makes of their sources; effects and
actions run side effects when a source changes or a trigger fires.  Signals sent to a state
are applied in batches: the signal system merges them and walks the subscriber tree, the memo
system recomputes the marked computeds (each after its dirty sources), and the effect system
decides which effects run.

A world holds cells of one value type; an enum of the kinds of data needed lets one world
hold them all.  Entity ids are handed out by the world in order (next index, generation 1, in
the bit layout of Bevy's `Entity::to_bits`).

## Layout

- `src/` — the verified library.
  - `framework.rs` — results, errors, the data bound of cell values, entity lists.
  - `entity_set.rs` — sets of entities held in `bevy_ecs`'s `SparseSet`, and the trusted
    wrappers around it.
  - `lazy_immutable.rs` — the cell: data, pending next value, subscribers.
  - `resource.rs` — the sets shared by one batch.
  - `world.rs` and `world/` — the entities and their components, the commands that create
    and signal them, and the systems: `init`, `signal`, `computed`, `effect`, with
    `subscribe` for subscriptions.
  - `api.rs` — the user API.
  - `laws.rs` — properties that span several operations.
- `tests/` — tests on concrete values.
- `app/` — the Bevy plugin: the resource that holds the world and the closures, and the
  systems that run a batch every tick.
