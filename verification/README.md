# proto_ecs

An entity-component-system engine core whose logic is verified with Verus.

Entities own datagroups (their data) and run local systems on them, stage by
stage; worlds hold entities, their spatial hierarchy, and the global systems
they require.

## Layout

- `src/`: the verified library.
  - `handle`, `entity_allocator`, `free_queue`: generational allocators.
  - `data_group*`, `local_systems`, `toposort`, `sorting`: registries of
    datagroups and systems, and the dependency order of local systems.
  - `entity_spawn_desc`, `entity`, `entity_description`: what an entity is
    spawned from, how it is built, how its systems run, how it is described.
  - `hierarchy`, `world`, `global_system_stages`: spatial hierarchies, worlds,
    and the global systems each world runs per stage.
  - `layer`, `keys`, `events`, `time`, `window`, `platform`, `rendering`,
    `het_single_mem_block`: application pieces that hold no floating point.
  - `macro_args`: the argument grammar of the registration macros.
  - `laws`: properties that relate several operations.
- `tests/`: tests of the library.
- `app/`: the entity system's frame loop and command queues, layers' updates,
  casting, the heterogeneous memory block's allocation, and the application
  loop; none of it is verified.
