# os

The system-call layer of a small RISC-V teaching kernel: the calls for
files, processes and memory, program loading, the task manager that
schedules tasks round robin, and the per-task system-call counters, each
with a contract proved against abstract views of the kernel state.

Layout:

- `src/mm.rs` — a task's user address space (page number to permission bits
  and bytes), with the accessors that translate a user address.
- `src/elf.rs` — program images: reading an ELF image's loadable segments
  and building the address space it describes (segments, guard page, user
  stack).
- `src/fs.rs` — the file system: one root directory of names, each naming
  an inode; open flags, `Stat`, hard links.
- `src/task.rs` — task control blocks, the task manager, round-robin
  choice of the next task, program break, per-task counts.
- `src/kernel.rs` — the kernel state all calls act on and its invariant.
- `src/syscall/` — the entry point (`mod.rs`), file calls (`fs.rs`) and
  process and memory calls (`process.rs`), each with its contract, and the
  laws that relate them.
- `app/lib.rs` — the global kernel instance, the clock, the console and
  the module-level entry points that act on the global instance.

Where a user pointer is read or written, the model goes through the running
task's address space; the time is handed in by the caller.
