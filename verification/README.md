# Malloc frequency profiler

`malloc_freq` helps detect program hotspots that perform a large number of memory allocations.
It counts calls of `malloc` by call stack and allocation size, and prints the call stacks with the
number of calls and bytes that were allocated under each of them.

- `src/` is the library, whose logic is verified with [Verus](https://github.com/verus-lang/verus):
  recording allocations (`profile`, `allocator`), merging the profiles of several threads
  (`profile`), adding up the allocations under the beginnings of call stacks (`summary`), and
  printing them (`ranking`, `report`, `text`, `output`). `laws` states what holds of these
  together, some of it by way of the lines of a report (`lines`). What is relied upon without proof stands in the
  contracts of the functions marked `external_body`: the tries of the `radix_trie` crate (`trie`),
  the texts of numbers from `num_format` and the standard library and the symbols from `backtrace`
  (`text`), and the call stacks from `backtrace` (`allocator`).
- `app/` is the allocator that feeds the library, and `mf_print`, which prints stored profiles.
- `tests/` runs the library.

## Use

To profile a Rust program, make `ProfAllocator` of `app/allocator.rs` its global allocator. For
programs in other languages, build `app/` as a dynamic library with
`--cfg malloc_freq_preload` and load it with `LD_PRELOAD`.

When a thread of the program ends, its profile is stored in the directory `malloc_freq.<pid>`, in a
file of its own. To
print the profiles of all the threads together:

```bash
mf_print --dir malloc_freq.<pid> --threshold 0.2
```

Entries with fewer than `threshold` percent of all the calls are left out; their number of calls is
printed in one line.
