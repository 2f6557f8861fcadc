# ze_engine

The core of a small game engine, written in Verus: every function of the library
carries a contract that Verus proves.

## Layout

- `src/ecs/`: entities and their recycled ids, type-erased component storage (sparse
  sets over byte blobs), archetypes and their registry, the world, queries, read/write
  accesses, and systems: the registry of systems and system sets, the schedules it
  builds from their ordering constraints, and the decisions of the sequential and
  parallel executors.
- `src/filesystem/`: paths of the virtual filesystem (`/mount_point/location?query`)
  and the choice of the mount point that serves a path.
- `src/render_graph/`: frame graphs: resources, passes, and their compilation (pass
  culling, texture gathering, state transition barriers) and what a compiled pass still
  needs created on the device before it runs.
- `src/jobs.rs`: how parallel iteration splits its work, and the producers that hand
  out the items of each part.
- `src/gfx/`, `src/reflection.rs` (with the descriptions of the integer, `bool` and
  `char` primitives), `src/shader.rs` (with the decision a request for a shader pass's
  modules comes to), `src/ui.rs` (with the planning of draw-command batches): shared
  types.
- `tests/`: tests of the library on concrete values.
- `app/`: what runs around the library: threads, the graphics device, the host
  filesystem, typed components (whose destructors run on the bytes the world hands
  back when a component is removed or its entity destroyed) and the closures of
  systems and run conditions.

Three outside crates are called from the library through trusted wrappers whose
contracts are stated, not proved: `bitvec` (bit vectors), `petgraph` (dependency
graphs, topological sort, breadth-first walks) and `num_cpus` (the CPU count).
