# rust_recipes

A collection of Rust recipes — data structures, algorithms, bit tricks, error types and
design patterns — whose logic is verified with Verus.

- `src/` is the verified library. Every public function states what it returns or changes
  in `requires` / `ensures` over mathematical models (`Seq`, `Set`, `Map`, `int`), and the
  laws that relate several operations (a read gives back what a write wrote, an inclusion
  proof verifies against the root it came from, a Merkle root is a function of the leaves,
  ...) are
  public proof functions named `law_*`.
  - data structures: binary search trees, general trees, singly and doubly linked lists,
    ring buffer, graphs with depth- and breadth-first search, binary heaps, Merkle trees,
    an object pool that lends a slot to a closure and always takes it back, containers with their three iterators;
  - algorithms: sorts (bubble, selection, insertion, merge, quick, heap, counting, radix,
    Tim), Fibonacci, N-queens;
  - bit operations, the error-code bit mask, error values with their messages, small
    parsers (configuration lines, ports, dates), the bookkeeping of a leak-tracking
    allocator, and the command and cached-value patterns.
- `tests/` runs the library on concrete values.
- `app/` is the program around the library: the printed tours of the language and of the
  bit operations, the error types that carry `thiserror` derives, `anyhow` code that reads
  files, JSON through `serde`, the global-allocator glue, threads and channels.
