# rustiplix

A small RISC-V kernel and its boot loader, with the kernel's logic written and
proved in Verus.

- `src/` is the verified library: bit fields, Sv39 page tables and their
  iterator, the ELF loader, processes, run and wait queues, system calls, trap
  classification, the monitor's firmware calls and debug triggers, a first-fit
  heap allocator, CRC-32 and the serial boot protocol. Every function states
  what it returns or changes, and Verus proves it.
- `app/` is what touches the machine: control and status registers, memory
  mapped devices, raw memory, the global heap, context switches and the entry
  points. It reads the machine's state, hands it to the library and carries out
  what the library decides. A page table lives in the library as its entries
  and pages; `Pagetable::images` and the pages give their frames' contents,
  which app/ writes into memory before a process runs, reads the pages back
  before a fork, and gives every frame back to the heap (`Pagetable::free`)
  when a process dies.
- `tests/` runs the library on concrete values.

The library is built for the QEMU `virt` machine: `board::machine` names its
constants (timer frequency, UART). `board::visionfive2::machine` holds those of
the StarFive VisionFive 2; a build for that board points the `pub use` in
`src/board.rs` at it instead.
