# kernel_std

The core logic of a small x86-64 kernel and its boot loader, written in Verus: every
function in `src/` carries a contract that Verus proves, and the laws that tie functions
together are proof functions beside them.

## Layout

- `src/` — the verified library.
  - `constants`, `kernel_constants`: the kernel's constants and the alignment helpers.
  - `region`: memory regions and the region allocator that boot uses.
  - `paging`: page-table entries, segments, layouts, and the builder that turns a layout into
    page tables (with the law that walking the built tables finds every page of the layout).
  - `memory`: the memory switches and the allocators: the reserve slab (`reserve`), the
    kernel's general heap (`simple`) and a heap that keeps a hint of its size (`free_list`), and the
    functions that route a request to the allocator in use.
  - `boot_info`, `boot`, `multiboot`, `bootstrap`, `module`: boot information, the multiboot
    tags, command lines, memory maps, module descriptions and the plan that places modules at
    boot.
  - `cpu`: interrupt, task-state and global descriptor tables, and stacks.
  - `log`, `point`: the logger's decisions and the trace of points.
  - `serial`: the serial line's setup and the decisions of its writers.
  - `division`: 64-bit division and remainder by shifting and subtracting, for 32-bit machines.
- `tests/` — tests that run the library on concrete values.
- `app/` — what the library leaves to its callers: port and register access, global state
  behind locks, module decoding with serde, and the glue of the boot path.

## Checking

Verus verifies `src/`; the tests run with the outside crates linked.
