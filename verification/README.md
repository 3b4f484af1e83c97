# entity_engine

An entity component system, together with the memory, synchronization and windowing
utilities that it is built from. The library is written in Verus: what its functions do is
stated in their contracts and proved.

- `src/memory`: kinds of memory requests, allocators, and containers that are generic over
  the allocator they draw from.
- `src/ecs`: entities, the blocks and tables that hold their component data, the `World` that
  ties them together, queries, deferred changes, and the decisions of worker pools.
- `src/util`: a read-write spin lock, a work-stealing queue, and hexadecimal numbers.
- `src/window`: the settings and the state of windows.
- `app`: what needs the machine itself, such as worker threads and windows. It is ordinary
  Rust around the library.

The threads of a pool or the users of a lock make their calls in any order, each its own in
turn. The functions of `src/util/sync` and `src/ecs/work_queue.rs` therefore each make one
step, and their contracts and laws hold after any sequence of steps.

Where the caller chooses the allocator, a function whose result depends on memory being
available returns a `Result`, and the caller decides what to do without memory. Worlds and
maps of components keep their data on the heap; if that is exhausted, the process ends.
