# cricker-os

The capability core of a small microkernel, verified with Verus: scheduling, synchronous IPC,
capabilities, untyped memory and its revocation, the kernel's memory map, and the decisions of the
boot, the traps and the drivers.

## Layout

- `src/model/` holds the machine as the contracts see it, the discipline every operation keeps, and
  the laws that relate operations (`src/model/laws.rs`).
- `src/machine.rs`, `src/thread.rs`, `src/cpu.rs`, `src/ipc.rs`, `src/cap.rs`, `src/slots.rs` are the
  executable state; `src/sched/` is what is done to it.
- `src/frames.rs`, `src/memory.rs`, `src/untyped.rs`, `src/heap.rs`, `src/paging.rs`,
  `src/tables.rs`, `src/revoke.rs` are memory: physical, retyped and mapped.
- `src/arch/` is what differs between RISC-V and aarch64; `src/drivers/`, `src/console.rs` and
  `src/pci.rs` are devices; `src/smp.rs`, `src/stack.rs`, `src/boot.rs` and `src/bench.rs` are the
  other cores, the stacks, the order of the boot and the benchmarks' arithmetic.
- `app/` touches the hardware: registers, device memory, the context switch and the boot itself.

An operation takes the machine and the number of the core it runs on, decides, and returns what only
hardware can do: which registers to switch, which core to poke, what to write where.
