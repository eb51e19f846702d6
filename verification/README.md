# xo_os

The verified core of a small x86_64 kernel, written in Verus.

- `src/` is the library, every function proved against its contract:
  integer helpers (`utility`), the multiboot record (`boot_info`), page
  tables, the memory map, the buddy allocator, the slab allocator and the
  heap that routes requests between them (`mem`), interrupt descriptors and
  the interrupt controllers (`interrupts`), number formatting into byte
  buffers (`fmt`), I/O port handles (`ioports`) and ticket locks (`sync`).
- `tests/` runs the library on concrete values.
- `app/` is the kernel around the library: port I/O with `in`/`out`, the
  serial console, locks that spin, the global heap entry points, interrupt
  handling and the boot sequence.
