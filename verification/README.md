# rusl

The core of a small C library for x86_64 Linux, verified with Verus.

`src/` is the verified library. It states its behaviour over slices, an arena
of words and plain integers rather than raw pointers:

- `string`: C-string and memory routines (`strlen`, `strchr`, `strrchr`,
  `memrchr`, `strcmp`, `strcpy`, `stpcpy`, `strdup`, `strspn`, `bcmp`,
  `bcopy`, `bzero`) with their word-at-a-time scans.
- `malloc`: the boundary-tag allocator. `heap` holds the arena, its chunks and
  the 64 bins of free chunks; `model` and `spans` give the chunk-level model
  that the contracts are stated over; `mapped` handles chunks that live in a
  mapping of their own; `expand_heap` holds the test of whether a growth of
  the program break would run into a stack, for C callers (the heap itself
  grows a reserved arena, not the break).
- `syscall`, `unistd`, `time`, `mmap`, `thread`: what the library decides
  around system calls, as functions from the kernel's raw answer (and the
  caller's arguments) to the result and the `errno` to set.
- `environ`, `atomic`: the auxiliary vector's position and bit scanning.

`app/` holds the C entry points: it makes the system calls (with `sc`), keeps
the global heap behind a `spin` mutex (the heap's own arena and bins take whole
pages straight from the system, never `malloc`), provides `errno` and the
atomics, and converts between C pointers and the library's slices.

`tests/` runs the library on concrete values.
