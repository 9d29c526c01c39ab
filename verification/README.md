# slickbench

A hash table benchmarking framework whose tables, datasets, workloads and
runner are verified with Verus.

## Layout

- `src/trait_def.rs` — the `HashTable` interface (a set of keys, by value) and
  the `TableKey` abstraction of the keys (`u64` and `String`).
- `src/hash_utils.rs` — the two seeded AHash functions shared by all tables.
- `src/implns/` — linear probing, quadratic probing, cuckoo hashing, the
  adapted Slick hash (blocks with sliding boundaries, thresholds and a
  linear-probing backyard) and the `std::collections::HashSet` baseline.
- `src/laws.rs` — laws that hold across the operations of every table.
- `src/datasets/` — the sequential and uniform generators, and the parsing
  of the word and title files into shuffled datasets.
- `src/workloads/` — the bulk and read-heavy schedules and their timing.
- `src/runner/` — repetitions, best-of timing and memory estimates.
- `app/` — the command line program: argument parsing, file reading, the
  Zipf dataset and the read-heavy draws (both floating point), load factors,
  and the CSV output.
- `tests/` — tests of the library on concrete values.
