# Swamp

An inference engine for language models on modest machines: quantised weights, a
paged key-value cache that moves cold pages to disk, sparse attention, drafting from
past patterns, and resources that follow the temperature.

- `src/` is the library, verified with Verus. It holds what the engine decides: cache
  pages and their eviction, packed formats, attention positions, work splits, the walk
  through the layers, sessions, routing, budgets, clocks and queues. Numbers in floating
  point pass through it as bit patterns; it compares them, and leaves their arithmetic
  to its callers.
- `app/` is ordinary Rust around it: floating point, files, sensors, Lua policies, the
  Vulkan device, threads and the HTTP service. Model files and vocabularies come in
  through the traits of `app/source.rs`.
- `tests/` runs the library from outside.

Public proof functions whose names start with `law_` state what holds of several
functions together.
