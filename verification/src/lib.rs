//! A verified model of a teaching kernel's system-call layer.
pub mod mm;
pub mod elf;
pub mod fs;
pub mod task;
pub mod syscall;
pub mod kernel;
