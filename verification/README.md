# lib: a verified allocator core and C library random number generators

The library holds the decisions of a slab-style `malloc` (size classes,
group records, the rings of active groups, slot framing, `free`, `realloc`,
aligned allocation, `calloc` clearing, donation of spare memory), a bump
allocator for early start-up, and the `rand`, `random` and `rand48`
families of generators. Everything in `src/` is verified with Verus; the
contracts state what each function returns or changes.

Work that needs the operating system (mapping pages, moving the program
break, futexes, errno) is not done in `src/`. The functions that would
alternate such work with decisions are state machines there instead
(`MallocJob`, `BumpJob`, `LockAcquire`): they return the action to
perform and take the outcome back. `app/` performs the actions and exports
the C interface.

Layout of `src/`:

- `meta`, `slot`, `bits`: size classes, the packed fields of a group
  record, and the in-band slot headers.
- `heap`, `group`, `slots`, `malloc`: the bookkeeping, group planning and
  the `malloc` state machine.
- `free`, `realloc`, `aligned`, `calloc`, `donate`: the other entry points.
- `bump`: the start-up bump allocator.
- `glue`: the lock word, its acquisition protocol, and the secret.
- `rand`, `random`, `rand48`: the generators.

Notes on `app/`:

- The C layer keeps all allocator state behind one `std::sync::Mutex`,
  and the group records live in `Vec`s that allocate through the process
  allocator. Installed as the process's own allocator (`RuslGlobal`, or
  the exported `malloc`), a call would re-enter that lock; the C layer is
  meant to run beside a system allocator, not in place of it.
- `lock_word` / `unlock_word` drive the verified lock protocol
  (`LockAcquire`) on a shared lock word; the C layer itself serialises
  through the `Mutex` above.
